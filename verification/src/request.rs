//! Building the transport-ready request for each command: the endpoint
//! path and the JSON body. An omitted lookup attribute is omitted from the
//! body — never rendered as null or an empty string — and the local
//! `download` directive is never serialized at all.

use vstd::prelude::*;
use crate::json::{
    string_text, member_text, members_text, object_text, elements_text, array_text,
    append_string_text, lemma_members_text_push, lemma_elements_text_push,
};
use crate::query::{ApiCommand, LookupQuery, DumpQuery};
use crate::symbols::SymbolMap;
use crate::text::{push_char, seq_views};

verus! {

/// A transport-ready request: an HTTP POST to `path` carrying `body` as
/// its JSON payload.
#[derive(Debug)]
pub struct RequestDescriptor {
    pub path: String,
    pub body: String,
}

/// The lookup endpoint.
pub open spec fn lookup_path() -> Seq<char> {
    "https://libc.rip/api/find"@
}

/// The dump endpoint for one catalog entry: the id travels as a path
/// segment, not in the body.
pub open spec fn dump_path(id: Seq<char>) -> Seq<char> {
    "https://libc.rip/api/libc/"@ + id
}

/// The members of the serialized symbol map: each address rendered as a
/// JSON string, in entry order.
pub open spec fn sym_members(es: Seq<(Seq<char>, Seq<char>)>) -> Seq<(Seq<char>, Seq<char>)> {
    es.map_values(|e: (Seq<char>, Seq<char>)| (e.0, string_text(e.1)))
}

/// The member an optional field contributes: one entry when set, none when
/// omitted.
pub open spec fn opt_member(key: Seq<char>, v: Option<String>) -> Seq<(Seq<char>, Seq<char>)> {
    match v {
        Some(s) => seq![(key, string_text(s@))],
        None => Seq::empty(),
    }
}

/// The serialized members of a lookup payload, in field order. An omitted
/// field contributes nothing, and `download` contributes nothing in either
/// case.
pub open spec fn lookup_members(q: LookupQuery) -> Seq<(Seq<char>, Seq<char>)> {
    opt_member("md5"@, q.md5) + opt_member("sha1"@, q.sha1) + opt_member("sha256"@, q.sha256)
        + opt_member("buildid"@, q.buildid) + opt_member("id"@, q.id) + (match q.symbols {
        Some(sm) => seq![("symbols"@, object_text(sym_members(sm@)))],
        None => Seq::<(Seq<char>, Seq<char>)>::empty(),
    })
}

/// The JSON body of a lookup request.
pub open spec fn lookup_body(q: LookupQuery) -> Seq<char> {
    object_text(lookup_members(q))
}

/// The serialized members of a dump payload: only the symbol filter.
pub open spec fn dump_members(d: DumpQuery) -> Seq<(Seq<char>, Seq<char>)> {
    seq![("symbols"@, array_text(seq_views(d.symbols@)))]
}

/// The JSON body of a dump request.
pub open spec fn dump_body(d: DumpQuery) -> Seq<char> {
    object_text(dump_members(d))
}

/// Whether some member of `ms` carries `key`.
pub open spec fn has_key(ms: Seq<(Seq<char>, Seq<char>)>, key: Seq<char>) -> bool {
    exists|i: int| 0 <= i < ms.len() && ms[i].0 == key
}

proof fn lemma_has_key_concat(
    a: Seq<(Seq<char>, Seq<char>)>,
    b: Seq<(Seq<char>, Seq<char>)>,
    key: Seq<char>,
)
    ensures
        has_key(a + b, key) <==> (has_key(a, key) || has_key(b, key)),
{
    if has_key(a + b, key) {
        let i = choose|i: int| 0 <= i < (a + b).len() && (a + b)[i].0 == key;
        if i < a.len() {
            assert(a[i] == (a + b)[i]);
        } else {
            assert(b[i - a.len()] == (a + b)[i]);
        }
    }
    if has_key(a, key) {
        let i = choose|i: int| 0 <= i < a.len() && a[i].0 == key;
        assert((a + b)[i] == a[i]);
    }
    if has_key(b, key) {
        let i = choose|i: int| 0 <= i < b.len() && b[i].0 == key;
        assert((a + b)[a.len() + i] == b[i]);
    }
}

proof fn lemma_has_key_single(m: (Seq<char>, Seq<char>), key: Seq<char>)
    ensures
        has_key(seq![m], key) <==> m.0 == key,
{
    assert(seq![m][0] == m);
    if has_key(seq![m], key) {
        let i = choose|i: int| 0 <= i < seq![m].len() && seq![m][i].0 == key;
        assert(i == 0);
    }
}

proof fn lemma_lookup_members_keys(q: LookupQuery, k: Seq<char>)
    ensures
        has_key(lookup_members(q), k) <==> ((q.md5 is Some && k == "md5"@) || (q.sha1 is Some
            && k == "sha1"@) || (q.sha256 is Some && k == "sha256"@) || (q.buildid is Some
            && k == "buildid"@) || (q.id is Some && k == "id"@) || (q.symbols is Some
            && k == "symbols"@)),
{
    let m1 = opt_member("md5"@, q.md5);
    let m2 = opt_member("sha1"@, q.sha1);
    let m3 = opt_member("sha256"@, q.sha256);
    let m4 = opt_member("buildid"@, q.buildid);
    let m5 = opt_member("id"@, q.id);
    let m6 = match q.symbols {
        Some(sm) => seq![("symbols"@, object_text(sym_members(sm@)))],
        None => Seq::<(Seq<char>, Seq<char>)>::empty(),
    };
    lemma_has_key_concat(m1 + m2 + m3 + m4 + m5, m6, k);
    lemma_has_key_concat(m1 + m2 + m3 + m4, m5, k);
    lemma_has_key_concat(m1 + m2 + m3, m4, k);
    lemma_has_key_concat(m1 + m2, m3, k);
    lemma_has_key_concat(m1, m2, k);
    if q.md5 is Some {
        lemma_has_key_single(("md5"@, string_text(q.md5->0@)), k);
    }
    if q.sha1 is Some {
        lemma_has_key_single(("sha1"@, string_text(q.sha1->0@)), k);
    }
    if q.sha256 is Some {
        lemma_has_key_single(("sha256"@, string_text(q.sha256->0@)), k);
    }
    if q.buildid is Some {
        lemma_has_key_single(("buildid"@, string_text(q.buildid->0@)), k);
    }
    if q.id is Some {
        lemma_has_key_single(("id"@, string_text(q.id->0@)), k);
    }
    if q.symbols is Some {
        lemma_has_key_single(("symbols"@, object_text(sym_members(q.symbols->0@))), k);
    }
}

/// A lookup payload carries a field's key exactly when that field is set,
/// and carries no key but the six field keys.
pub proof fn lemma_lookup_payload_keys(q: LookupQuery)
    ensures
        has_key(lookup_members(q), "md5"@) <==> q.md5 is Some,
        has_key(lookup_members(q), "sha1"@) <==> q.sha1 is Some,
        has_key(lookup_members(q), "sha256"@) <==> q.sha256 is Some,
        has_key(lookup_members(q), "buildid"@) <==> q.buildid is Some,
        has_key(lookup_members(q), "id"@) <==> q.id is Some,
        has_key(lookup_members(q), "symbols"@) <==> q.symbols is Some,
        forall|k: Seq<char>|
            #[trigger] has_key(lookup_members(q), k) ==> (k == "md5"@ || k == "sha1"@
                || k == "sha256"@ || k == "buildid"@ || k == "id"@ || k == "symbols"@),
{
    reveal_strlit("md5");
    reveal_strlit("sha1");
    reveal_strlit("sha256");
    reveal_strlit("buildid");
    reveal_strlit("id");
    reveal_strlit("symbols");
    assert("md5"@.len() == 3 && "sha1"@.len() == 4 && "sha256"@.len() == 6 && "buildid"@.len() == 7
        && "id"@.len() == 2 && "symbols"@.len() == 7);
    assert("buildid"@[0] == 'b' && "symbols"@[0] == 's');
    lemma_lookup_members_keys(q, "md5"@);
    lemma_lookup_members_keys(q, "sha1"@);
    lemma_lookup_members_keys(q, "sha256"@);
    lemma_lookup_members_keys(q, "buildid"@);
    lemma_lookup_members_keys(q, "id"@);
    lemma_lookup_members_keys(q, "symbols"@);
    assert forall|k: Seq<char>| #[trigger] has_key(lookup_members(q), k) implies (k == "md5"@
        || k == "sha1"@ || k == "sha256"@ || k == "buildid"@ || k == "id"@
        || k == "symbols"@) by {
        lemma_lookup_members_keys(q, k);
    }
}

/// A dump payload carries exactly the `symbols` key; the id travels only
/// in the path.
pub proof fn lemma_dump_payload_keys(d: DumpQuery)
    ensures
        has_key(dump_members(d), "symbols"@),
        forall|k: Seq<char>| #[trigger] has_key(dump_members(d), k) ==> k == "symbols"@,
{
    lemma_has_key_single(("symbols"@, array_text(seq_views(d.symbols@))), "symbols"@);
    assert forall|k: Seq<char>| #[trigger] has_key(dump_members(d), k) implies k == "symbols"@ by {
        lemma_has_key_single(("symbols"@, array_text(seq_views(d.symbols@))), k);
    }
}

/// The local `download` directive never becomes a payload key, for either
/// request kind, whatever its value.
pub proof fn lemma_download_never_serialized(q: LookupQuery, d: DumpQuery)
    ensures
        !has_key(lookup_members(q), "download"@),
        !has_key(dump_members(d), "download"@),
{
    reveal_strlit("download");
    reveal_strlit("md5");
    reveal_strlit("sha1");
    reveal_strlit("sha256");
    reveal_strlit("buildid");
    reveal_strlit("id");
    reveal_strlit("symbols");
    lemma_lookup_payload_keys(q);
    lemma_dump_payload_keys(d);
    assert("download"@.len() == 8);
    assert("md5"@.len() == 3 && "sha1"@.len() == 4 && "sha256"@.len() == 6 && "buildid"@.len() == 7
        && "id"@.len() == 2 && "symbols"@.len() == 7);
}

fn append_str_member(out: &mut String, first: bool, key: &str, val: &str)
    ensures
        final(out)@ == old(out)@ + (if first {
            Seq::<char>::empty()
        } else {
            seq![',']
        }) + member_text((key@, string_text(val@))),
{
    if !first {
        push_char(out, ',');
    }
    append_string_text(out, key);
    push_char(out, ':');
    append_string_text(out, val);
    proof {
        assert(out@ =~= old(out)@ + (if first {
            Seq::<char>::empty()
        } else {
            seq![',']
        }) + member_text((key@, string_text(val@))));
    }
}

fn append_symbols_object(out: &mut String, sm: &SymbolMap)
    ensures
        final(out)@ == old(out)@ + object_text(sym_members(sm@)),
{
    push_char(out, '{');
    let n = sm.len();
    let mut i: usize = 0;
    proof {
        assert(sym_members(sm@.take(0)) =~= Seq::<(Seq<char>, Seq<char>)>::empty());
    }
    while i < n
        invariant
            i <= n,
            n == sm@.len(),
            out@ == old(out)@ + seq!['{'] + members_text(sym_members(sm@.take(i as int))),
        decreases n - i,
    {
        let ghost msi = sym_members(sm@.take(i as int));
        let name = sm.name_at(i);
        let addr = sm.addr_at(i);
        append_str_member(out, i == 0, name.as_str(), addr.as_str());
        proof {
            assert(msi.len() == i as int);
            let m = (sm@[i as int].0, string_text(sm@[i as int].1));
            assert(sm@.take(i + 1).drop_last() =~= sm@.take(i as int));
            assert(sym_members(sm@.take(i + 1)) =~= msi.push(m));
            lemma_members_text_push(msi, m);
            assert(out@ =~= old(out)@ + seq!['{'] + members_text(sym_members(sm@.take(i + 1))));
        }
        i = i + 1;
    }
    proof {
        assert(sm@.take(n as int) =~= sm@);
    }
    push_char(out, '}');
    proof {
        assert(out@ =~= old(out)@ + object_text(sym_members(sm@)));
    }
}

fn append_string_array(out: &mut String, items: &Vec<String>)
    ensures
        final(out)@ == old(out)@ + array_text(seq_views(items@)),
{
    push_char(out, '[');
    let n = items.len();
    let mut i: usize = 0;
    proof {
        assert(seq_views(items@).take(0) =~= Seq::<Seq<char>>::empty());
    }
    while i < n
        invariant
            i <= n,
            n == items@.len(),
            out@ == old(out)@ + seq!['['] + elements_text(seq_views(items@).take(i as int)),
        decreases n - i,
    {
        let ghost ssi = seq_views(items@).take(i as int);
        if i > 0 {
            push_char(out, ',');
        }
        append_string_text(out, items[i].as_str());
        proof {
            assert(ssi.len() == i as int);
            assert(seq_views(items@).take(i + 1).drop_last() =~= ssi);
            assert(seq_views(items@).take(i + 1) =~= ssi.push(items@[i as int]@));
            lemma_elements_text_push(ssi, items@[i as int]@);
            assert(out@ =~= old(out)@ + seq!['['] + elements_text(
                seq_views(items@).take(i + 1),
            ));
        }
        i = i + 1;
    }
    proof {
        assert(seq_views(items@).take(n as int) =~= seq_views(items@));
    }
    push_char(out, ']');
    proof {
        assert(out@ =~= old(out)@ + array_text(seq_views(items@)));
    }
}

fn append_lookup_field(
    out: &mut String,
    ms: Ghost<Seq<(Seq<char>, Seq<char>)>>,
    first: bool,
    key: &str,
    v: &Option<String>,
) -> (r: (bool, Ghost<Seq<(Seq<char>, Seq<char>)>>))
    requires
        old(out)@ == seq!['{'] + members_text(ms@),
        first <==> ms@.len() == 0,
    ensures
        r.1@ == ms@ + opt_member(key@, *v),
        final(out)@ == seq!['{'] + members_text(r.1@),
        r.0 <==> r.1@.len() == 0,
{
    let ghost ms2 = ms@ + opt_member(key@, *v);
    match v {
        None => {
            proof {
                assert(ms2 =~= ms@);
            }
            (first, Ghost(ms2))
        },
        Some(s) => {
            append_str_member(out, first, key, s.as_str());
            proof {
                lemma_members_text_push(ms@, (key@, string_text(s@)));
                assert(ms@.push((key@, string_text(s@))) =~= ms2);
                assert(out@ =~= seq!['{'] + members_text(ms2));
            }
            (false, Ghost(ms2))
        },
    }
}

fn append_symbols_field(
    out: &mut String,
    ms: Ghost<Seq<(Seq<char>, Seq<char>)>>,
    first: bool,
    v: &Option<SymbolMap>,
) -> (r: Ghost<Seq<(Seq<char>, Seq<char>)>>)
    requires
        old(out)@ == seq!['{'] + members_text(ms@),
        first <==> ms@.len() == 0,
    ensures
        r@ == ms@ + (match *v {
            Some(sm) => seq![("symbols"@, object_text(sym_members(sm@)))],
            None => Seq::<(Seq<char>, Seq<char>)>::empty(),
        }),
        final(out)@ == seq!['{'] + members_text(r@),
{
    let ghost ms2 = ms@ + (match v {
        Some(sm) => seq![("symbols"@, object_text(sym_members(sm@)))],
        None => Seq::<(Seq<char>, Seq<char>)>::empty(),
    });
    match v {
        None => {
            proof {
                assert(ms2 =~= ms@);
            }
            Ghost(ms2)
        },
        Some(sm) => {
            if !first {
                push_char(out, ',');
            }
            append_string_text(out, "symbols");
            push_char(out, ':');
            append_symbols_object(out, sm);
            proof {
                let m = ("symbols"@, object_text(sym_members(sm@)));
                lemma_members_text_push(ms@, m);
                assert(ms@.push(m) =~= ms2);
                assert(out@ =~= seq!['{'] + members_text(ms2));
            }
            Ghost(ms2)
        },
    }
}

fn build_lookup_body(q: &LookupQuery) -> (r: String)
    ensures
        r@ == lookup_body(*q),
{
    let mut body = String::new();
    push_char(&mut body, '{');
    let ghost e: Seq<(Seq<char>, Seq<char>)> = Seq::empty();
    proof {
        assert(body@ =~= seq!['{'] + members_text(e));
    }
    let (f1, ms1) = append_lookup_field(&mut body, Ghost(e), true, "md5", &q.md5);
    let (f2, ms2) = append_lookup_field(&mut body, ms1, f1, "sha1", &q.sha1);
    let (f3, ms3) = append_lookup_field(&mut body, ms2, f2, "sha256", &q.sha256);
    let (f4, ms4) = append_lookup_field(&mut body, ms3, f3, "buildid", &q.buildid);
    let (f5, ms5) = append_lookup_field(&mut body, ms4, f4, "id", &q.id);
    let ms6 = append_symbols_field(&mut body, ms5, f5, &q.symbols);
    proof {
        assert(ms6@ =~= lookup_members(*q));
    }
    push_char(&mut body, '}');
    proof {
        assert(body@ =~= lookup_body(*q));
    }
    body
}

fn build_dump_body(d: &DumpQuery) -> (r: String)
    ensures
        r@ == dump_body(*d),
{
    let mut body = String::new();
    push_char(&mut body, '{');
    append_string_text(&mut body, "symbols");
    push_char(&mut body, ':');
    append_string_array(&mut body, &d.symbols);
    push_char(&mut body, '}');
    proof {
        let m = ("symbols"@, array_text(seq_views(d.symbols@)));
        assert(dump_members(*d)[0] == m);
        assert(members_text(dump_members(*d)) == member_text(m));
        assert(body@ =~= dump_body(*d));
    }
    body
}

impl ApiCommand {
    /// Builds the transport-ready request for this command: the fixed
    /// lookup endpoint with the serialized lookup payload, or the dump
    /// endpoint for the query's id with the serialized filter. Never
    /// mutates its input.
    pub fn gen_req(&self) -> (r: RequestDescriptor)
        ensures
            match *self {
                ApiCommand::Find(q) => r.path@ == lookup_path() && r.body@ == lookup_body(q),
                ApiCommand::Dump(d) => r.path@ == dump_path(d.id@) && r.body@ == dump_body(d),
            },
    {
        match self {
            ApiCommand::Find(q) => RequestDescriptor {
                path: String::from_str("https://libc.rip/api/find"),
                body: build_lookup_body(q),
            },
            ApiCommand::Dump(d) => RequestDescriptor {
                path: String::from_str("https://libc.rip/api/libc/").concat(d.id.as_str()),
                body: build_dump_body(d),
            },
        }
    }
}

} // verus!
