//! The two query shapes the catalog answers: an attribute lookup and a
//! per-entry symbol dump, with their construction-time validation.

use vstd::prelude::*;
use crate::errors::Error;
use crate::symbols::SymbolMap;
use crate::text::{trim, trim_str, split_spec, split_str, seq_views};

verus! {

/// A lookup request: every identifying attribute is optional, and the ones
/// that are set combine as an AND filter. `download` is a local directive
/// only and is never serialized.
#[derive(Debug)]
pub struct LookupQuery {
    pub md5: Option<String>,
    pub sha1: Option<String>,
    pub sha256: Option<String>,
    pub buildid: Option<String>,
    pub id: Option<String>,
    pub symbols: Option<SymbolMap>,
    pub download: bool,
}

impl LookupQuery {
    /// Well-formed: the symbol map, when set, keeps its names unique.
    pub open spec fn wf(&self) -> bool {
        self.symbols matches Some(sm) ==> sm.wf()
    }

    /// The unfiltered query: no attribute set, display mode.
    pub fn new() -> (r: LookupQuery)
        ensures
            r.md5 is None,
            r.sha1 is None,
            r.sha256 is None,
            r.buildid is None,
            r.id is None,
            r.symbols is None,
            !r.download,
            r.wf(),
    {
        LookupQuery {
            md5: None,
            sha1: None,
            sha256: None,
            buildid: None,
            id: None,
            symbols: None,
            download: false,
        }
    }
}

/// Trims one symbol name for a dump filter. A name that is empty after
/// trimming is a `MalformedInput`.
pub fn parse_symbol(st: &str) -> (r: Result<String, Error>)
    ensures
        trim(st@).len() > 0 ==> (r is Ok && r.unwrap()@ == trim(st@)),
        trim(st@).len() == 0 ==> (r matches Err(Error::MalformedInput(t)) && t@
            == "Empty symbol"@),
{
    let t = trim_str(st);
    if t.as_str().is_empty() {
        Err(Error::MalformedInput(String::from_str("Empty symbol")))
    } else {
        Ok(t)
    }
}

/// What a raw dump symbol filter denotes: the fields around each comma,
/// each trimmed, or nothing when some field is empty after trimming.
pub open spec fn symbol_list_spec(s: Seq<char>) -> Option<Seq<Seq<char>>> {
    let fs = split_spec(s, ',');
    if forall|i: int| 0 <= i < fs.len() ==> trim(#[trigger] fs[i]).len() > 0 {
        Some(fs.map_values(|f: Seq<char>| trim(f)))
    } else {
        None
    }
}

/// Splits a raw comma-separated symbol filter and trims each entry. An
/// entry that is empty after trimming fails with `MalformedInput` naming
/// the whole list.
pub fn parse_symbol_list(raw: &str) -> (r: Result<Vec<String>, Error>)
    ensures
        match symbol_list_spec(raw@) {
            Some(ss) => r is Ok && seq_views(r.unwrap()@) == ss,
            None => r matches Err(Error::MalformedInput(t)) && t@ == raw@,
        },
{
    let fields = split_str(raw, ',');
    let ghost fviews = seq_views(fields@);
    let mut out: Vec<String> = Vec::new();
    let mut k: usize = 0;
    while k < fields.len()
        invariant
            k <= fields.len(),
            fviews == seq_views(fields@),
            fviews == split_spec(raw@, ','),
            forall|i: int| 0 <= i < k ==> trim(#[trigger] fviews[i]).len() > 0,
            seq_views(out@) == fviews.take(k as int).map_values(|f: Seq<char>| trim(f)),
        decreases fields.len() - k,
    {
        let t = trim_str(fields[k].as_str());
        if t.as_str().is_empty() {
            return Err(Error::MalformedInput(raw.to_owned()));
        }
        let ghost out_before = out@;
        let ghost tv = t@;
        let ghost tstr = t;
        out.push(t);
        proof {
            assert(out@ == out_before.push(tstr));
            assert(seq_views(out_before).len() == out_before.len());
            assert(fviews.take(k as int).map_values(|f: Seq<char>| trim(f)).len() == k as int);
            assert(out_before.len() == k as int);
            assert(tv == trim(fviews[k as int]));
            assert forall|i: int| 0 <= i < out@.len() implies seq_views(out@)[i] == trim(
                #[trigger] fviews.take(k + 1)[i],
            ) by {
                if i < k as int {
                    assert(seq_views(out_before)[i] == fviews.take(k as int).map_values(
                        |f: Seq<char>| trim(f),
                    )[i]);
                    assert(out@[i] == out_before[i]);
                } else {
                    assert(out@[i] == tstr);
                    assert(out@[i]@ == tv);
                }
            }
            assert(seq_views(out@) =~= fviews.take(k + 1).map_values(|f: Seq<char>| trim(f)));
        }
        k = k + 1;
    }
    proof {
        assert(fviews.take(fields@.len() as int) =~= fviews);
    }
    Ok(out)
}

/// A dump request: the catalog entry to dump, and an ordered filter of
/// symbol names — empty meaning "dump all".
#[derive(Debug)]
pub struct DumpQuery {
    pub id: String,
    pub symbols: Vec<String>,
}

impl DumpQuery {
    /// Well-formed: the id is non-empty and every filter entry is non-empty
    /// and carries no surrounding whitespace.
    pub open spec fn wf(&self) -> bool {
        &&& self.id@.len() > 0
        &&& forall|i: int|
            0 <= i < self.symbols@.len() ==> trim(#[trigger] self.symbols@[i]@)
                == self.symbols@[i]@ && self.symbols@[i]@.len() > 0
    }

    /// Builds a dump request from the raw command-line fields, validating
    /// both at construction time: the id must be non-empty, and the filter,
    /// when given, must pass `parse_symbol_list`.
    pub fn new(id: String, raw_filter: Option<&str>) -> (r: Result<DumpQuery, Error>)
        ensures
            r is Ok <==> (id@.len() > 0 && (raw_filter matches Some(raw) ==> symbol_list_spec(
                raw@,
            ) is Some)),
            match r {
                Ok(d) => {
                    &&& d.id@ == id@
                    &&& d.wf()
                    &&& (match raw_filter {
                        None => d.symbols@.len() == 0,
                        Some(raw) => symbol_list_spec(raw@) == Some(seq_views(d.symbols@)),
                    })
                },
                Err(e) => {
                    if id@.len() == 0 {
                        e matches Error::MalformedInput(t) && t@ == id@
                    } else {
                        &&& raw_filter matches Some(raw)
                        &&& symbol_list_spec(raw@) is None
                        &&& (e matches Error::MalformedInput(t) && t@ == raw@)
                    }
                },
            },
    {
        if id.as_str().is_empty() {
            return Err(Error::MalformedInput(id));
        }
        match raw_filter {
            None => Ok(DumpQuery { id, symbols: Vec::new() }),
            Some(raw) => match parse_symbol_list(raw) {
                Ok(symbols) => {
                    let d = DumpQuery { id, symbols };
                    proof {
                        let fs = split_spec(raw@, ',');
                        assert(symbol_list_spec(raw@) is Some);
                        assert(seq_views(d.symbols@) == fs.map_values(|f: Seq<char>| trim(f)));
                        assert forall|i: int| 0 <= i < d.symbols@.len() implies trim(
                            #[trigger] d.symbols@[i]@,
                        ) == d.symbols@[i]@ && d.symbols@[i]@.len() > 0 by {
                            assert(d.symbols@[i]@ == seq_views(d.symbols@)[i]);
                            assert(seq_views(d.symbols@)[i] == trim(fs[i]));
                            crate::text::lemma_trim_trimmed(fs[i]);
                        }
                    }
                    Ok(d)
                },
                Err(e) => Err(e),
            },
        }
    }
}

/// The closed set of commands the client issues; every later stage branches
/// on this variant.
pub enum ApiCommand {
    /// Look up catalog entries matching the query's attributes.
    Find(LookupQuery),
    /// Dump symbol offsets for one catalog entry.
    Dump(DumpQuery),
}

} // verus!
