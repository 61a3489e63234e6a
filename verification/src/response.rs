//! Interpreting a successful response: the status gate that rejects a
//! non-success answer before anything is printed or written, the router
//! that decides between printing the body and downloading the matched
//! artifacts, and the per-record download step.

use vstd::prelude::*;
use crate::errors::Error;
use crate::query::ApiCommand;
use crate::text::{trim, trim_str, split_spec, split_str, seq_views};

verus! {

/// Whether an HTTP status is a success.
pub open spec fn is_success(status: u16) -> bool {
    200 <= status < 300
}

/// Gates a response on its status: a non-success status is a
/// `RemoteRejection` carrying that status, so that it aborts the invocation
/// before any output is printed and before any file is written.
pub fn check_status(status: u16) -> (r: Result<(), Error>)
    ensures
        r is Ok <==> is_success(status),
        !is_success(status) ==> (r matches Err(Error::RemoteRejection(s)) && s == status),
{
    if 200 <= status && status < 300 {
        Ok(())
    } else {
        Err(Error::RemoteRejection(status))
    }
}

/// What a routed response asks the caller to do next.
#[derive(Debug, PartialEq)]
pub enum RouteAction {
    /// Write this text, already trimmed, to the standard output stream.
    Print(String),
    /// Fetch each of these artifact URLs, in order, saving each one.
    Download(Vec<String>),
}

/// The download URLs of the catalog records a successful lookup body
/// denotes, in order — when the body is a JSON array of record objects,
/// each carrying a `download_url` string — and nothing otherwise.
pub uninterp spec fn urls_of(body: Seq<char>) -> Option<Seq<Seq<char>>>;

/// Relies on `serde_json::from_str` and `serde_json::Value`'s accessors:
/// decodes the body as a JSON array of objects and hands out each object's
/// `download_url` string, in order; any other shape is `None`.
#[verifier::external_body]
fn decode_record_urls(body: &str) -> (r: Option<Vec<String>>)
    ensures
        (r is Some) == (urls_of(body@) is Some),
        r is Some ==> seq_views(r.unwrap()@) == urls_of(body@)->Some_0,
{
    let values: Vec<serde_json::Value> = match serde_json::from_str(body) {
        Ok(v) => v,
        Err(_) => return None,
    };
    let mut urls: Vec<String> = Vec::new();
    for v in values.iter() {
        match v.get("download_url").and_then(serde_json::Value::as_str) {
            Some(u) => urls.push(u.to_owned()),
            None => return None,
        }
    }
    Some(urls)
}

/// Decides what a successful response body means for the command that
/// issued the request: a dump, or a lookup in display mode, renders the
/// body trimmed of surrounding whitespace and otherwise verbatim; a lookup
/// in download mode decodes the catalog records and hands their artifact
/// URLs on, and any other body shape is a `ResponseShapeError`.
pub fn route(cmd: &ApiCommand, body: &str) -> (r: Result<RouteAction, Error>)
    ensures
        match *cmd {
            ApiCommand::Dump(_) => r matches Ok(RouteAction::Print(t)) && t@ == trim(body@),
            ApiCommand::Find(q) => {
                if !q.download {
                    r matches Ok(RouteAction::Print(t)) && t@ == trim(body@)
                } else {
                    match urls_of(body@) {
                        Some(us) => r matches Ok(RouteAction::Download(v)) && seq_views(v@) == us,
                        None => r == Err::<RouteAction, Error>(Error::ResponseShapeError),
                    }
                }
            },
        },
{
    match cmd {
        ApiCommand::Find(q) => {
            if q.download {
                match decode_record_urls(body) {
                    Some(urls) => Ok(RouteAction::Download(urls)),
                    None => Err(Error::ResponseShapeError),
                }
            } else {
                Ok(RouteAction::Print(trim_str(body)))
            }
        },
        ApiCommand::Dump(_) => Ok(RouteAction::Print(trim_str(body))),
    }
}

/// The filename a download URL derives: what follows its last `/`.
pub open spec fn derived_name(url: Seq<char>) -> Seq<char> {
    split_spec(url, '/').last()
}

/// Whether a URL yields a usable filename: it holds a `/`, and something
/// follows the last one.
pub open spec fn name_ok(url: Seq<char>) -> bool {
    split_spec(url, '/').len() >= 2 && derived_name(url).len() > 0
}

/// One record's download step: the artifact URL, the file it is saved
/// under, and the progress line announced before the fetch begins.
#[derive(Debug)]
pub struct DownloadStep {
    pub url: String,
    pub outfile: String,
    pub line: String,
}

/// Prepares the download of one record: derives the output filename as the
/// URL's final path segment and builds the progress line. A URL with no
/// `/`, or with nothing after its last `/`, is a fatal `MalformedInput` —
/// never a write to an unnamed file.
pub fn download_step(url: &str) -> (r: Result<DownloadStep, Error>)
    ensures
        name_ok(url@) ==> (r matches Ok(st) && st.url@ == url@ && st.outfile@ == derived_name(
            url@,
        ) && st.line@ == url@ + " -> "@ + derived_name(url@)),
        !name_ok(url@) ==> (r matches Err(Error::MalformedInput(t)) && t@ == url@),
{
    let parts = split_str(url, '/');
    if parts.len() < 2 {
        return Err(Error::MalformedInput(url.to_owned()));
    }
    let name = parts[parts.len() - 1].clone();
    proof {
        assert(name@ == seq_views(parts@)[parts@.len() - 1]);
        assert(name@ == derived_name(url@));
    }
    if name.as_str().is_empty() {
        return Err(Error::MalformedInput(url.to_owned()));
    }
    let line = url.to_owned().concat(" -> ").concat(name.as_str());
    proof {
        assert(line@ =~= url@ + " -> "@ + derived_name(url@));
    }
    Ok(DownloadStep { url: url.to_owned(), outfile: name, line })
}

} // verus!
