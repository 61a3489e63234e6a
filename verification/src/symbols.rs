//! The symbol map: a validated association of symbol names to observed
//! address strings, and the parser that builds one from the user's
//! comma-separated, colon-delimited text.

use vstd::prelude::*;
use crate::errors::Error;
use crate::text::{
    trim, trim_str, split_spec, split_str, split_once_spec, split_once_str, seq_views, str_eq,
    push_char, no_char, lemma_split_no_sep, lemma_split_concat_sep, lemma_split_once_found,
    lemma_split_fields_no_sep, lemma_split_once_no_char, lemma_split_once_before_no_sep,
    lemma_trim_no_char, lemma_trim_trimmed,
};

verus! {

/// Whether some entry of `es` carries `name`.
pub open spec fn has_name(es: Seq<(Seq<char>, Seq<char>)>, name: Seq<char>) -> bool {
    exists|i: int| 0 <= i < es.len() && es[i].0 == name
}

/// The index of the entry of `es` carrying `name`.
pub open spec fn index_of_name(es: Seq<(Seq<char>, Seq<char>)>, name: Seq<char>) -> int {
    choose|i: int| 0 <= i < es.len() && es[i].0 == name
}

/// No two entries carry the same name.
pub open spec fn unique_names(es: Seq<(Seq<char>, Seq<char>)>) -> bool {
    forall|i: int, j: int| 0 <= i < j < es.len() ==> es[i].0 != es[j].0
}

/// Last-write-wins insertion: an entry carrying `name` is replaced in place,
/// otherwise a new entry is appended.
pub open spec fn upsert(
    es: Seq<(Seq<char>, Seq<char>)>,
    name: Seq<char>,
    addr: Seq<char>,
) -> Seq<(Seq<char>, Seq<char>)> {
    if has_name(es, name) {
        es.update(index_of_name(es, name), (name, addr))
    } else {
        es.push((name, addr))
    }
}

/// The mapping the entries denote, later entries overwriting earlier ones.
pub open spec fn entries_to_map(es: Seq<(Seq<char>, Seq<char>)>) -> Map<Seq<char>, Seq<char>>
    decreases es.len(),
{
    if es.len() == 0 {
        Map::empty()
    } else {
        entries_to_map(es.drop_last()).insert(es.last().0, es.last().1)
    }
}

/// With unique names, the mapping holds exactly the entries.
pub proof fn lemma_entries_map(es: Seq<(Seq<char>, Seq<char>)>)
    requires
        unique_names(es),
    ensures
        forall|n: Seq<char>| #[trigger] entries_to_map(es).contains_key(n) ==> has_name(es, n),
        forall|i: int|
            0 <= i < es.len() ==> entries_to_map(es).contains_key(#[trigger] es[i].0)
                && entries_to_map(es)[es[i].0] == es[i].1,
    decreases es.len(),
{
    if es.len() > 0 {
        assert(unique_names(es.drop_last()));
        lemma_entries_map(es.drop_last());
        assert forall|i: int| 0 <= i < es.len() implies entries_to_map(es).contains_key(
            #[trigger] es[i].0,
        ) && entries_to_map(es)[es[i].0] == es[i].1 by {
            if i < es.len() - 1 {
                assert(es.drop_last()[i] == es[i]);
                assert(es[i].0 != es.last().0);
            }
        }
        assert forall|n: Seq<char>| #[trigger] entries_to_map(es).contains_key(n) implies has_name(
            es,
            n,
        ) by {
            if n != es.last().0 {
                assert(entries_to_map(es.drop_last()).contains_key(n));
                assert(has_name(es.drop_last(), n));
                let j = choose|j: int| 0 <= j < es.drop_last().len() && es.drop_last()[j].0 == n;
                assert(es[j] == es.drop_last()[j]);
                assert(es[j].0 == n);
            } else {
                assert(es[es.len() - 1].0 == n);
            }
        }
    }
}

/// Upserting keeps names unique and acts as insertion on the mapping.
pub proof fn lemma_upsert_map(es: Seq<(Seq<char>, Seq<char>)>, name: Seq<char>, addr: Seq<char>)
    requires
        unique_names(es),
    ensures
        unique_names(upsert(es, name, addr)),
        entries_to_map(upsert(es, name, addr)) == entries_to_map(es).insert(name, addr),
{
    if has_name(es, name) {
        let k = index_of_name(es, name);
        assert(0 <= k < es.len() && es[k].0 == name);
        let es2 = es.update(k, (name, addr));
        assert forall|i: int, j: int| 0 <= i < j < es2.len() implies es2[i].0 != es2[j].0 by {
            assert(es2[i].0 == es[i].0);
            assert(es2[j].0 == es[j].0);
        }
        lemma_update_map(es, k, addr);
    } else {
        let es2 = es.push((name, addr));
        assert forall|i: int, j: int| 0 <= i < j < es2.len() implies es2[i].0 != es2[j].0 by {
            if j == es.len() {
                assert(es2[i].0 == es[i].0);
                if es[i].0 == name {
                    assert(has_name(es, name));
                }
            }
        }
        assert(es2.drop_last() =~= es);
        assert(entries_to_map(es2) == entries_to_map(es).insert(name, addr));
    }
}

proof fn lemma_update_map(es: Seq<(Seq<char>, Seq<char>)>, k: int, addr: Seq<char>)
    requires
        unique_names(es),
        0 <= k < es.len(),
    ensures
        entries_to_map(es.update(k, (es[k].0, addr))) == entries_to_map(es).insert(es[k].0, addr),
    decreases es.len(),
{
    let name = es[k].0;
    let es2 = es.update(k, (name, addr));
    if k == es.len() - 1 {
        assert(es2.drop_last() =~= es.drop_last());
        assert(es2.last() == (name, addr));
        assert(entries_to_map(es2) == entries_to_map(es.drop_last()).insert(name, addr));
        assert(entries_to_map(es.drop_last()).insert(name, es.last().1).insert(name, addr)
            =~= entries_to_map(es.drop_last()).insert(name, addr));
    } else {
        assert(unique_names(es.drop_last()));
        assert(es.drop_last()[k] == es[k]);
        lemma_update_map(es.drop_last(), k, addr);
        assert(es2.drop_last() =~= es.drop_last().update(k, (name, addr)));
        assert(es2.last() == es.last());
        assert(name != es.last().0);
        assert(entries_to_map(es2) == entries_to_map(es.drop_last()).insert(name, addr).insert(
            es.last().0,
            es.last().1,
        ));
        assert(entries_to_map(es.drop_last()).insert(name, addr).insert(es.last().0, es.last().1)
            =~= entries_to_map(es.drop_last()).insert(es.last().0, es.last().1).insert(
            name,
            addr,
        ));
    }
}

/// A validated mapping of symbol names to address strings. Entries keep
/// their insertion order and names stay unique.
#[derive(Debug)]
pub struct SymbolMap {
    entries: Vec<(String, String)>,
}

impl View for SymbolMap {
    type V = Seq<(Seq<char>, Seq<char>)>;

    closed spec fn view(&self) -> Seq<(Seq<char>, Seq<char>)> {
        self.entries@.map_values(|e: (String, String)| (e.0@, e.1@))
    }
}

impl SymbolMap {
    /// Well-formed: no name occurs twice.
    pub open spec fn wf(&self) -> bool {
        unique_names(self@)
    }

    /// The mapping the entries denote.
    pub open spec fn as_map(&self) -> Map<Seq<char>, Seq<char>> {
        entries_to_map(self@)
    }

    /// The empty symbol map.
    pub fn new() -> (r: SymbolMap)
        ensures
            r@ == Seq::<(Seq<char>, Seq<char>)>::empty(),
            r.wf(),
    {
        let r = SymbolMap { entries: Vec::new() };
        proof {
            assert(r@ =~= Seq::<(Seq<char>, Seq<char>)>::empty());
        }
        r
    }

    /// How many entries the map holds.
    pub fn len(&self) -> (n: usize)
        ensures
            n == self@.len(),
    {
        self.entries.len()
    }

    /// The name of the entry at `i`.
    pub fn name_at(&self, i: usize) -> (r: &String)
        requires
            i < self@.len(),
        ensures
            r@ == self@[i as int].0,
    {
        &self.entries[i].0
    }

    /// The address of the entry at `i`.
    pub fn addr_at(&self, i: usize) -> (r: &String)
        requires
            i < self@.len(),
        ensures
            r@ == self@[i as int].1,
    {
        &self.entries[i].1
    }

    /// Inserts an entry, the new address overwriting any earlier one under
    /// the same name (last write wins).
    pub fn insert(&mut self, name: String, addr: String)
        requires
            old(self).wf(),
        ensures
            final(self)@ == upsert(old(self)@, name@, addr@),
            final(self).wf(),
            final(self).as_map() == old(self).as_map().insert(name@, addr@),
    {
        let n = self.entries.len();
        let mut i: usize = 0;
        while i < n
            invariant
                i <= n,
                n == self.entries.len(),
                *self == *old(self),
                self.wf(),
                forall|k: int| 0 <= k < i ==> self@[k].0 != name@,
            decreases n - i,
        {
            if str_eq(self.entries[i].0.as_str(), name.as_str()) {
                let ghost es = self@;
                proof {
                    lemma_upsert_map(es, name@, addr@);
                    assert(es[i as int].0 == name@);
                    assert(has_name(es, name@));
                    let j = index_of_name(es, name@);
                    assert(0 <= j < es.len() && es[j].0 == name@);
                    if j < i as int {
                        assert(es[j].0 != name@);
                    }
                    if (i as int) < j {
                        assert(false);
                    }
                    assert(j == i as int);
                    assert(upsert(es, name@, addr@) == es.update(i as int, (name@, addr@)));
                }
                let _ = self.entries.remove(i);
                self.entries.insert(i, (name, addr));
                proof {
                    assert(self@ =~= es.update(i as int, (name@, addr@)));
                }
                return ;
            }
            i = i + 1;
        }
        proof {
            lemma_upsert_map(old(self)@, name@, addr@);
        }
        let ghost es = self@;
        proof {
            assert(!has_name(es, name@));
        }
        self.entries.push((name, addr));
        proof {
            assert(self@ =~= es.push((name@, addr@)));
        }
    }

    /// Looks a name up in the mapping.
    pub fn get(&self, name: &str) -> (r: Option<&String>)
        requires
            self.wf(),
        ensures
            match r {
                Some(a) => self.as_map().contains_key(name@) && a@ == self.as_map()[name@],
                None => !self.as_map().contains_key(name@),
            },
    {
        proof {
            lemma_entries_map(self@);
        }
        let n = self.entries.len();
        let mut i: usize = 0;
        while i < n
            invariant
                i <= n,
                n == self.entries.len(),
                self.wf(),
                forall|k: int| 0 <= k < i ==> self@[k].0 != name@,
            decreases n - i,
        {
            if str_eq(self.entries[i].0.as_str(), name) {
                proof {
                    lemma_entries_map(self@);
                    assert(self@[i as int].0 == name@);
                    assert(self.as_map().contains_key(self@[i as int].0) && self.as_map()[self@[
                        i as int
                    ].0] == self@[i as int].1);
                }
                return Some(&self.entries[i].1);
            }
            i = i + 1;
        }
        proof {
            assert(!has_name(self@, name@));
            lemma_entries_map(self@);
            if self.as_map().contains_key(name@) {
                assert(has_name(self@, name@));
            }
        }
        None
    }
}

/// One entry's canonical text: `name:addr`.
pub open spec fn entry_text(e: (Seq<char>, Seq<char>)) -> Seq<char> {
    e.0 + seq![':'] + e.1
}

/// The canonical text of the entries: their `name:addr` fields joined by
/// commas.
pub open spec fn entries_text(es: Seq<(Seq<char>, Seq<char>)>) -> Seq<char>
    decreases es.len(),
{
    if es.len() == 0 {
        Seq::empty()
    } else if es.len() == 1 {
        entry_text(es[0])
    } else {
        entries_text(es.drop_last()) + seq![','] + entry_text(es.last())
    }
}

proof fn lemma_entries_text_push(es: Seq<(Seq<char>, Seq<char>)>, e: (Seq<char>, Seq<char>))
    ensures
        entries_text(es.push(e)) == entries_text(es) + (if es.len() == 0 {
            Seq::<char>::empty()
        } else {
            seq![',']
        }) + entry_text(e),
{
    assert(es.push(e).drop_last() =~= es);
    assert(es.push(e).last() == e);
    if es.len() == 0 {
        assert(es.push(e)[0] == e);
        assert(entries_text(es.push(e)) =~= entries_text(es) + Seq::<char>::empty()
            + entry_text(e));
    }
}

impl SymbolMap {
    /// The canonical re-serialization of the map: `name:addr` fields joined
    /// by commas, with no decorating whitespace.
    pub fn to_text(&self) -> (r: String)
        ensures
            r@ == entries_text(self@),
    {
        let mut out = String::new();
        let n = self.len();
        let mut i: usize = 0;
        proof {
            assert(self@.take(0) =~= Seq::<(Seq<char>, Seq<char>)>::empty());
        }
        while i < n
            invariant
                i <= n,
                n == self@.len(),
                out@ == entries_text(self@.take(i as int)),
            decreases n - i,
        {
            let ghost esi = self@.take(i as int);
            if i > 0 {
                push_char(&mut out, ',');
            }
            out.append(self.name_at(i).as_str());
            push_char(&mut out, ':');
            out.append(self.addr_at(i).as_str());
            proof {
                assert(esi.len() == i as int);
                assert(self@.take(i + 1).drop_last() =~= esi);
                assert(self@.take(i + 1) =~= esi.push(self@[i as int]));
                lemma_entries_text_push(esi, self@[i as int]);
                assert(out@ =~= entries_text(self@.take(i + 1)));
            }
            i = i + 1;
        }
        proof {
            assert(self@.take(n as int) =~= self@);
        }
        out
    }
}

/// An entry that the canonical round trip gives back unchanged: both halves
/// non-empty and already trimmed, the name free of `,` and `:`, and the
/// address free of `,`.
pub open spec fn round_trip_entry(e: (Seq<char>, Seq<char>)) -> bool {
    &&& e.0.len() > 0
    &&& e.1.len() > 0
    &&& trim(e.0) == e.0
    &&& trim(e.1) == e.1
    &&& forall|k: int| 0 <= k < e.0.len() ==> e.0[k] != ',' && e.0[k] != ':'
    &&& forall|k: int| 0 <= k < e.1.len() ==> e.1[k] != ','
}

proof fn lemma_parse_field_entry(e: (Seq<char>, Seq<char>))
    requires
        round_trip_entry(e),
    ensures
        parse_field_spec(entry_text(e)) == Some(e),
{
    let f = entry_text(e);
    assert(f[e.0.len() as int] == ':');
    assert(forall|k: int| 0 <= k < e.0.len() ==> f[k] == e.0[k]);
    lemma_split_once_found(f, ':', e.0.len() as int);
    assert(f.take(e.0.len() as int) =~= e.0);
    assert(f.skip(e.0.len() as int + 1) =~= e.1);
}

proof fn lemma_entry_text_no_comma(e: (Seq<char>, Seq<char>))
    requires
        round_trip_entry(e),
    ensures
        forall|k: int| 0 <= k < entry_text(e).len() ==> entry_text(e)[k] != ',',
{
    let f = entry_text(e);
    assert forall|k: int| 0 <= k < f.len() implies f[k] != ',' by {
        if k < e.0.len() {
            assert(f[k] == e.0[k]);
        } else if k == e.0.len() {
            assert(f[k] == ':');
        } else {
            assert(f[k] == e.1[k - e.0.len() - 1]);
        }
    }
}

proof fn lemma_fields_of_entries_text(es: Seq<(Seq<char>, Seq<char>)>)
    requires
        es.len() >= 1,
        forall|i: int| 0 <= i < es.len() ==> round_trip_entry(#[trigger] es[i]),
    ensures
        split_spec(entries_text(es), ',') == es.map_values(
            |e: (Seq<char>, Seq<char>)| entry_text(e),
        ),
    decreases es.len(),
{
    let texts = es.map_values(|e: (Seq<char>, Seq<char>)| entry_text(e));
    if es.len() == 1 {
        lemma_entry_text_no_comma(es[0]);
        lemma_split_no_sep(entry_text(es[0]), ',');
        assert(seq![entry_text(es[0])] =~= texts);
    } else {
        assert forall|i: int| 0 <= i < es.drop_last().len() implies round_trip_entry(
            #[trigger] es.drop_last()[i],
        ) by {
            assert(es.drop_last()[i] == es[i]);
        }
        lemma_fields_of_entries_text(es.drop_last());
        lemma_entry_text_no_comma(es.last());
        lemma_split_concat_sep(entries_text(es.drop_last()), entry_text(es.last()), ',');
        assert(es.drop_last().map_values(|e: (Seq<char>, Seq<char>)| entry_text(e)).push(
            entry_text(es.last()),
        ) =~= texts);
    }
}

proof fn lemma_fold_of_entries(es: Seq<(Seq<char>, Seq<char>)>)
    requires
        unique_names(es),
        forall|i: int| 0 <= i < es.len() ==> round_trip_entry(#[trigger] es[i]),
    ensures
        fold_entries(es.map_values(|e: (Seq<char>, Seq<char>)| entry_text(e))) == Ok::<
            _,
            Seq<char>,
        >(es),
    decreases es.len(),
{
    let texts = es.map_values(|e: (Seq<char>, Seq<char>)| entry_text(e));
    if es.len() == 0 {
        assert(texts =~= Seq::<Seq<char>>::empty());
        assert(Seq::<(Seq<char>, Seq<char>)>::empty() =~= es);
    } else {
        assert(unique_names(es.drop_last()));
        assert forall|i: int| 0 <= i < es.drop_last().len() implies round_trip_entry(
            #[trigger] es.drop_last()[i],
        ) by {
            assert(es.drop_last()[i] == es[i]);
        }
        lemma_fold_of_entries(es.drop_last());
        assert(texts.drop_last() =~= es.drop_last().map_values(
            |e: (Seq<char>, Seq<char>)| entry_text(e),
        ));
        assert(texts.last() == entry_text(es.last()));
        lemma_parse_field_entry(es.last());
        let last = es.last();
        if has_name(es.drop_last(), last.0) {
            let j = choose|j: int|
                0 <= j < es.drop_last().len() && es.drop_last()[j].0 == last.0;
            assert(es.drop_last()[j] == es[j]);
            assert(es[j].0 == es[es.len() - 1].0);
            assert(false);
        }
        assert(upsert(es.drop_last(), last.0, last.1) == es.drop_last().push(last));
        assert(es.drop_last().push(last) =~= es);
    }
}

proof fn lemma_fold_entries_shape(fields: Seq<Seq<char>>)
    requires
        fold_entries(fields) is Ok,
        forall|i: int| 0 <= i < fields.len() ==> no_char(#[trigger] fields[i], ','),
    ensures
        forall|i: int|
            0 <= i < fold_entries(fields)->Ok_0.len() ==> round_trip_entry(
                #[trigger] fold_entries(fields)->Ok_0[i],
            ),
    decreases fields.len(),
{
    if fields.len() > 0 {
        assert forall|i: int| 0 <= i < fields.drop_last().len() implies no_char(
            #[trigger] fields.drop_last()[i],
            ',',
        ) by {
            assert(fields.drop_last()[i] == fields[i]);
        }
        lemma_fold_entries_shape(fields.drop_last());
        let es0 = fold_entries(fields.drop_last())->Ok_0;
        let f = fields.last();
        assert(fields[fields.len() - 1] == f);
        assert(no_char(f, ','));
        let p = split_once_spec(f, ':')->Some_0;
        let n = trim(p.0);
        let a = trim(p.1);
        lemma_split_once_before_no_sep(f, ':');
        lemma_split_once_no_char(f, ':', ',');
        lemma_trim_no_char(p.0, ',');
        lemma_trim_no_char(p.0, ':');
        lemma_trim_no_char(p.1, ',');
        lemma_trim_trimmed(p.0);
        lemma_trim_trimmed(p.1);
        assert(round_trip_entry((n, a)));
        let es = upsert(es0, n, a);
        assert(fold_entries(fields)->Ok_0 == es);
        assert forall|i: int| 0 <= i < es.len() implies round_trip_entry(#[trigger] es[i]) by {
            if has_name(es0, n) {
                let j = index_of_name(es0, n);
                if i == j {
                    assert(es[i] == (n, a));
                } else {
                    assert(es[i] == es0[i]);
                }
            } else {
                if i < es0.len() {
                    assert(es[i] == es0[i]);
                } else {
                    assert(es[i] == (n, a));
                }
            }
        }
    }
}

/// Parsing, canonically re-serializing, and re-parsing hands back exactly
/// the first parse: the parser is idempotent under its own re-serialization
/// and stable under the trimming it applies. (An empty map re-serializes to
/// the empty text, which does not parse, so it stands outside this law.)
pub proof fn lemma_reparse_identity(s: Seq<char>)
    requires
        parse_spec(s) is Ok,
        parse_spec(s)->Ok_0.len() > 0,
    ensures
        parse_spec(entries_text(parse_spec(s)->Ok_0)) == parse_spec(s),
{
    let fields = split_spec(s, ',');
    let es = parse_spec(s)->Ok_0;
    lemma_fold_wf(fields);
    lemma_split_fields_no_sep(s, ',');
    lemma_fold_entries_shape(fields);
    lemma_parse_round_trip(es);
}

/// Parsing the canonical re-serialization of a non-empty symbol map yields
/// exactly its entries back: the parser is stable under trimming and its
/// own re-serialization. (An empty map re-serializes to the empty text,
/// which does not parse, so it stands outside this law.)
pub proof fn lemma_parse_round_trip(es: Seq<(Seq<char>, Seq<char>)>)
    requires
        es.len() > 0,
        unique_names(es),
        forall|i: int| 0 <= i < es.len() ==> round_trip_entry(#[trigger] es[i]),
    ensures
        parse_spec(entries_text(es)) == Ok::<_, Seq<char>>(es),
{
    lemma_fields_of_entries_text(es);
    lemma_fold_of_entries(es);
}

/// What one comma-separated field denotes: the trimmed name and address
/// around the first colon, or nothing when the field is malformed.
pub open spec fn parse_field_spec(f: Seq<char>) -> Option<(Seq<char>, Seq<char>)> {
    match split_once_spec(f, ':') {
        None => None,
        Some(p) => {
            let name = trim(p.0);
            let addr = trim(p.1);
            if name.len() == 0 || addr.len() == 0 {
                None
            } else {
                Some((name, addr))
            }
        },
    }
}

/// Folds the fields into entries, last write winning; the error is the first
/// malformed field's original text.
pub open spec fn fold_entries(fields: Seq<Seq<char>>) -> Result<
    Seq<(Seq<char>, Seq<char>)>,
    Seq<char>,
>
    decreases fields.len(),
{
    if fields.len() == 0 {
        Ok(Seq::empty())
    } else {
        match fold_entries(fields.drop_last()) {
            Err(e) => Err(e),
            Ok(es) => match parse_field_spec(fields.last()) {
                None => Err(fields.last()),
                Some(p) => Ok(upsert(es, p.0, p.1)),
            },
        }
    }
}

/// What parsing a raw symbol-map text yields: the entries in insertion
/// order, or the first malformed field.
pub open spec fn parse_spec(s: Seq<char>) -> Result<Seq<(Seq<char>, Seq<char>)>, Seq<char>> {
    fold_entries(split_spec(s, ','))
}

proof fn lemma_fold_err_persists(fields: Seq<Seq<char>>, j: int)
    requires
        0 <= j <= fields.len(),
        fold_entries(fields.take(j)) is Err,
    ensures
        fold_entries(fields) == fold_entries(fields.take(j)),
    decreases fields.len() - j,
{
    if j < fields.len() {
        assert(fields.take(j + 1).drop_last() =~= fields.take(j));
        lemma_fold_err_persists(fields, j + 1);
    } else {
        assert(fields.take(j) =~= fields);
    }
}

proof fn lemma_fold_wf(fields: Seq<Seq<char>>)
    requires
        fold_entries(fields) is Ok,
    ensures
        unique_names(fold_entries(fields)->Ok_0),
    decreases fields.len(),
{
    if fields.len() == 0 {
    } else {
        lemma_fold_wf(fields.drop_last());
        let es = fold_entries(fields.drop_last())->Ok_0;
        let p = parse_field_spec(fields.last())->Some_0;
        lemma_upsert_map(es, p.0, p.1);
    }
}

/// Parses a comma-separated list of colon-delimited `name: address` fields
/// into a symbol map. Both halves of each field are trimmed; a field
/// without a colon, or with an empty trimmed half, fails with
/// `MalformedInput` carrying that field's original text, and the first such
/// field decides. Later fields overwrite earlier ones under the same name.
pub fn parse_symbol_map(st: &str) -> (r: Result<SymbolMap, Error>)
    ensures
        match parse_spec(st@) {
            Ok(es) => r is Ok && r.unwrap()@ == es && r.unwrap().wf(),
            Err(f) => r matches Err(Error::MalformedInput(t)) && t@ == f,
        },
{
    let fields = split_str(st, ',');
    let ghost fviews = seq_views(fields@);
    let mut sm = SymbolMap::new();
    let mut k: usize = 0;
    proof {
        assert(fviews.take(0) =~= Seq::<Seq<char>>::empty());
    }
    while k < fields.len()
        invariant
            k <= fields.len(),
            fviews == seq_views(fields@),
            fviews == split_spec(st@, ','),
            sm.wf(),
            fold_entries(fviews.take(k as int)) == Ok::<_, Seq<char>>(sm@),
        decreases fields.len() - k,
    {
        let ghost prefix = fviews.take(k as int);
        proof {
            assert(fviews.take(k + 1).drop_last() =~= prefix);
            assert(fviews.take(k + 1).last() == fviews[k as int]);
        }
        let parsed = split_once_str(fields[k].as_str(), ':');
        match parsed {
            None => {
                proof {
                    assert(fold_entries(fviews.take(k + 1)) == Err::<
                        Seq<(Seq<char>, Seq<char>)>,
                        _,
                    >(fviews[k as int]));
                    lemma_fold_err_persists(fviews, k + 1);
                }
                return Err(Error::MalformedInput(fields[k].clone()));
            },
            Some((a, b)) => {
                let name = trim_str(a.as_str());
                let addr = trim_str(b.as_str());
                if name.as_str().is_empty() || addr.as_str().is_empty() {
                    proof {
                        assert(parse_field_spec(fviews[k as int]) is None);
                        assert(fold_entries(fviews.take(k + 1)) == Err::<
                            Seq<(Seq<char>, Seq<char>)>,
                            _,
                        >(fviews[k as int]));
                        lemma_fold_err_persists(fviews, k + 1);
                    }
                    return Err(Error::MalformedInput(fields[k].clone()));
                }
                proof {
                    assert(parse_field_spec(fviews[k as int]) == Some((name@, addr@)));
                }
                sm.insert(name, addr);
            },
        }
        k = k + 1;
    }
    proof {
        assert(fviews.take(fields@.len() as int) =~= fviews);
    }
    Ok(sm)
}

} // verus!
