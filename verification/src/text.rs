//! Character-level text helpers: trimming, splitting on a separator, and
//! appending, each specified over the string's view (a `Seq<char>`).

use vstd::prelude::*;

verus! {

/// The whitespace characters that trimming strips.
pub open spec fn is_ws(c: char) -> bool {
    c == ' ' || c == '\t' || c == '\n' || c == '\r'
}

/// Exec mirror of `is_ws`.
pub fn is_ws_char(c: char) -> (r: bool)
    ensures
        r == is_ws(c),
{
    c == ' ' || c == '\t' || c == '\n' || c == '\r'
}

/// The sequence with leading whitespace removed.
pub open spec fn trim_front(s: Seq<char>) -> Seq<char>
    decreases s.len(),
{
    if s.len() > 0 && is_ws(s.first()) {
        trim_front(s.drop_first())
    } else {
        s
    }
}

/// The sequence with trailing whitespace removed.
pub open spec fn trim_back(s: Seq<char>) -> Seq<char>
    decreases s.len(),
{
    if s.len() > 0 && is_ws(s.last()) {
        trim_back(s.drop_last())
    } else {
        s
    }
}

/// The sequence with surrounding whitespace removed.
pub open spec fn trim(s: Seq<char>) -> Seq<char> {
    trim_back(trim_front(s))
}

proof fn lemma_trim_front_skip(s: Seq<char>, i: int)
    requires
        0 <= i <= s.len(),
        forall|k: int| 0 <= k < i ==> is_ws(s[k]),
        i < s.len() ==> !is_ws(s[i]),
    ensures
        trim_front(s) == s.skip(i),
    decreases i,
{
    if i == 0 {
        assert(s.skip(0) =~= s);
    } else {
        lemma_trim_front_skip(s.drop_first(), i - 1);
        assert(s.drop_first().skip(i - 1) =~= s.skip(i));
    }
}

proof fn lemma_trim_back_take(s: Seq<char>, j: int)
    requires
        0 <= j <= s.len(),
        forall|k: int| j <= k < s.len() ==> is_ws(s[k]),
        j > 0 ==> !is_ws(s[j - 1]),
    ensures
        trim_back(s) == s.take(j),
    decreases s.len() - j,
{
    if j == s.len() {
        assert(s.take(j) =~= s);
    } else {
        lemma_trim_back_take(s.drop_last(), j);
        assert(s.drop_last().take(j) =~= s.take(j));
    }
}

/// Trimming a sequence with no surrounding whitespace changes nothing.
pub proof fn lemma_trim_noop(s: Seq<char>)
    requires
        s.len() > 0 ==> !is_ws(s.first()) && !is_ws(s.last()),
    ensures
        trim(s) == s,
{
    lemma_trim_front_skip(s, 0);
    assert(s.skip(0) =~= s);
    lemma_trim_back_take(s, s.len() as int);
    assert(s.take(s.len() as int) =~= s);
}

/// The trimmed sequence carries no surrounding whitespace, so trimming is
/// idempotent.
pub proof fn lemma_trim_trimmed(s: Seq<char>)
    ensures
        trim(s).len() > 0 ==> !is_ws(trim(s).first()) && !is_ws(trim(s).last()),
        trim(trim(s)) == trim(s),
    decreases s.len(),
{
    lemma_trim_front_no_leading_ws(s);
    lemma_trim_back_shape(trim_front(s));
    if trim(s).len() > 0 {
        lemma_trim_noop(trim(s));
    } else {
        lemma_trim_noop(trim(s));
    }
}

proof fn lemma_trim_front_no_leading_ws(s: Seq<char>)
    ensures
        trim_front(s).len() > 0 ==> !is_ws(trim_front(s).first()),
    decreases s.len(),
{
    if s.len() > 0 && is_ws(s.first()) {
        lemma_trim_front_no_leading_ws(s.drop_first());
    }
}

proof fn lemma_trim_back_shape(s: Seq<char>)
    ensures
        trim_back(s).len() > 0 ==> !is_ws(trim_back(s).last()),
        trim_back(s).len() > 0 ==> trim_back(s).first() == s.first(),
        trim_back(s).len() <= s.len(),
    decreases s.len(),
{
    if s.len() > 0 && is_ws(s.last()) {
        lemma_trim_back_shape(s.drop_last());
    }
}

/// Returns the input with leading and trailing whitespace removed.
pub fn trim_str(s: &str) -> (r: String)
    ensures
        r@ == trim(s@),
{
    let len = s.unicode_len();
    let mut i: usize = 0;
    while i < len && is_ws_char(s.get_char(i))
        invariant
            i <= len,
            len == s@.len(),
            forall|k: int| 0 <= k < i ==> is_ws(s@[k]),
        decreases len - i,
    {
        i = i + 1;
    }
    let mut j: usize = len;
    while j > i && is_ws_char(s.get_char(j - 1))
        invariant
            i <= j <= len,
            len == s@.len(),
            forall|k: int| j <= k < len ==> is_ws(s@[k]),
        decreases j,
    {
        j = j - 1;
    }
    let piece = s.substring_char(i, j);
    proof {
        lemma_trim_front_skip(s@, i as int);
        lemma_trim_back_take(s@.skip(i as int), j - i);
        assert(s@.skip(i as int).take(j - i) =~= s@.subrange(i as int, j as int));
    }
    piece.to_owned()
}

/// Whether two string slices hold the same characters.
pub fn str_eq(a: &str, b: &str) -> (r: bool)
    ensures
        r == (a@ == b@),
{
    let la = a.unicode_len();
    let lb = b.unicode_len();
    if la != lb {
        return false;
    }
    let mut i: usize = 0;
    while i < la
        invariant
            i <= la,
            la == a@.len(),
            la == b@.len(),
            forall|k: int| 0 <= k < i ==> a@[k] == b@[k],
        decreases la - i,
    {
        if a.get_char(i) != b.get_char(i) {
            return false;
        }
        i = i + 1;
    }
    proof {
        assert(a@ =~= b@);
    }
    true
}

/// Relies on `String::push`: appends exactly the one character.
#[verifier::external_body]
pub fn push_char(s: &mut String, c: char)
    ensures
        final(s)@ == old(s)@.push(c),
{
    s.push(c);
}

/// The views of a sequence of strings.
pub open spec fn seq_views(ss: Seq<String>) -> Seq<Seq<char>> {
    ss.map_values(|s: String| s@)
}

/// The fields obtained by splitting on `sep`: splitting the empty sequence
/// gives one empty field, a trailing separator opens a new empty field, and
/// any other character extends the last field.
pub open spec fn split_spec(s: Seq<char>, sep: char) -> Seq<Seq<char>>
    decreases s.len(),
{
    if s.len() == 0 {
        seq![Seq::<char>::empty()]
    } else if s.last() == sep {
        split_spec(s.drop_last(), sep).push(Seq::<char>::empty())
    } else {
        let r = split_spec(s.drop_last(), sep);
        r.update(r.len() - 1, r.last().push(s.last()))
    }
}

/// Splitting always yields at least one field.
pub proof fn lemma_split_spec_len(s: Seq<char>, sep: char)
    ensures
        split_spec(s, sep).len() >= 1,
    decreases s.len(),
{
    if s.len() > 0 {
        lemma_split_spec_len(s.drop_last(), sep);
    }
}

/// Splits `s` into its fields around `sep`.
pub fn split_str(s: &str, sep: char) -> (parts: Vec<String>)
    ensures
        seq_views(parts@) == split_spec(s@, sep),
        parts.len() >= 1,
{
    let len = s.unicode_len();
    let mut parts: Vec<String> = Vec::new();
    let mut cur = String::new();
    let mut i: usize = 0;
    proof {
        assert(seq_views(parts@).push(cur@) =~= split_spec(s@.take(0), sep));
    }
    while i < len
        invariant
            i <= len,
            len == s@.len(),
            seq_views(parts@).push(cur@) == split_spec(s@.take(i as int), sep),
        decreases len - i,
    {
        let c = s.get_char(i);
        let ghost prefix = s@.take(i as int);
        let ghost parts_before = parts@;
        let ghost cur_before = cur@;
        if c == sep {
            parts.push(cur);
            cur = String::new();
        } else {
            push_char(&mut cur, c);
        }
        proof {
            assert(s@.take(i + 1).drop_last() =~= prefix);
            assert(s@.take(i + 1).last() == s@[i as int]);
            if c == sep {
                assert(seq_views(parts@) =~= seq_views(parts_before).push(cur_before));
                assert(seq_views(parts@).push(cur@) =~= split_spec(s@.take(i + 1), sep));
            } else {
                let r = split_spec(prefix, sep);
                assert(r == seq_views(parts_before).push(cur_before));
                assert(r.last() == cur_before);
                assert(seq_views(parts@) =~= seq_views(parts_before));
                assert(seq_views(parts@).push(cur@) =~= r.update(
                    r.len() - 1,
                    r.last().push(s@[i as int]),
                ));
            }
        }
        i = i + 1;
    }
    proof {
        assert(s@.take(len as int) =~= s@);
    }
    let ghost parts_before = parts@;
    parts.push(cur);
    proof {
        assert(seq_views(parts@) =~= seq_views(parts_before).push(cur@));
    }
    parts
}

/// `c` occurs nowhere in `s`.
pub open spec fn no_char(s: Seq<char>, c: char) -> bool {
    forall|k: int| 0 <= k < s.len() ==> s[k] != c
}

/// Every field of a split is free of the separator.
pub proof fn lemma_split_fields_no_sep(s: Seq<char>, sep: char)
    ensures
        forall|i: int|
            0 <= i < split_spec(s, sep).len() ==> no_char(#[trigger] split_spec(s, sep)[i], sep),
    decreases s.len(),
{
    if s.len() == 0 {
        assert(split_spec(s, sep)[0] == Seq::<char>::empty());
    } else {
        lemma_split_fields_no_sep(s.drop_last(), sep);
        let r0 = split_spec(s.drop_last(), sep);
        lemma_split_spec_len(s.drop_last(), sep);
        let r = split_spec(s, sep);
        assert forall|i: int| 0 <= i < r.len() implies no_char(#[trigger] r[i], sep) by {
            if s.last() == sep {
                if i < r0.len() {
                    assert(r[i] == r0[i]);
                } else {
                    assert(r[i] == Seq::<char>::empty());
                }
            } else {
                if i < r0.len() - 1 {
                    assert(r[i] == r0[i]);
                } else {
                    assert(r[i] == r0.last().push(s.last()));
                    assert forall|k: int| 0 <= k < r[i].len() implies r[i][k] != sep by {
                        if k < r0.last().len() {
                            assert(r[i][k] == r0.last()[k]);
                        } else {
                            assert(r[i][k] == s.last());
                        }
                    }
                }
            }
        }
    }
}

/// Splitting at the first separator keeps both parts free of any character
/// the whole was free of.
pub proof fn lemma_split_once_no_char(f: Seq<char>, sep: char, c: char)
    requires
        split_once_spec(f, sep) is Some,
        no_char(f, c),
    ensures
        no_char(split_once_spec(f, sep)->Some_0.0, c),
        no_char(split_once_spec(f, sep)->Some_0.1, c),
    decreases f.len(),
{
    assert forall|k: int| 0 <= k < f.drop_first().len() implies f.drop_first()[k] != c by {
        assert(f.drop_first()[k] == f[k + 1]);
    }
    if f.first() == sep {
    } else {
        lemma_split_once_no_char(f.drop_first(), sep, c);
        let p0 = split_once_spec(f.drop_first(), sep)->Some_0;
        let p = split_once_spec(f, sep)->Some_0;
        assert(p.0 == seq![f.first()] + p0.0);
        assert forall|k: int| 0 <= k < p.0.len() implies p.0[k] != c by {
            if k == 0 {
                assert(p.0[0] == f.first());
            } else {
                assert(p.0[k] == p0.0[k - 1]);
            }
        }
    }
}

/// The part before the first separator is free of the separator itself.
pub proof fn lemma_split_once_before_no_sep(f: Seq<char>, sep: char)
    requires
        split_once_spec(f, sep) is Some,
    ensures
        no_char(split_once_spec(f, sep)->Some_0.0, sep),
    decreases f.len(),
{
    if f.len() > 0 && f.first() != sep {
        lemma_split_once_before_no_sep(f.drop_first(), sep);
        let p0 = split_once_spec(f.drop_first(), sep)->Some_0;
        let p = split_once_spec(f, sep)->Some_0;
        assert(p.0 == seq![f.first()] + p0.0);
        assert forall|k: int| 0 <= k < p.0.len() implies p.0[k] != sep by {
            if k == 0 {
                assert(p.0[0] == f.first());
            } else {
                assert(p.0[k] == p0.0[k - 1]);
            }
        }
    }
}

proof fn lemma_trim_front_no_char(s: Seq<char>, c: char)
    requires
        no_char(s, c),
    ensures
        no_char(trim_front(s), c),
    decreases s.len(),
{
    if s.len() > 0 && is_ws(s.first()) {
        assert forall|k: int| 0 <= k < s.drop_first().len() implies s.drop_first()[k] != c by {
            assert(s.drop_first()[k] == s[k + 1]);
        }
        lemma_trim_front_no_char(s.drop_first(), c);
    }
}

proof fn lemma_trim_back_no_char(s: Seq<char>, c: char)
    requires
        no_char(s, c),
    ensures
        no_char(trim_back(s), c),
    decreases s.len(),
{
    if s.len() > 0 && is_ws(s.last()) {
        assert forall|k: int| 0 <= k < s.drop_last().len() implies s.drop_last()[k] != c by {
            assert(s.drop_last()[k] == s[k]);
        }
        lemma_trim_back_no_char(s.drop_last(), c);
    }
}

/// Trimming keeps a sequence free of any character it was free of.
pub proof fn lemma_trim_no_char(s: Seq<char>, c: char)
    requires
        no_char(s, c),
    ensures
        no_char(trim(s), c),
{
    lemma_trim_front_no_char(s, c);
    lemma_trim_back_no_char(trim_front(s), c);
}

/// A sequence without the separator splits into itself alone.
pub proof fn lemma_split_no_sep(s: Seq<char>, sep: char)
    requires
        forall|k: int| 0 <= k < s.len() ==> s[k] != sep,
    ensures
        split_spec(s, sep) == seq![s],
    decreases s.len(),
{
    if s.len() == 0 {
        assert(s =~= Seq::<char>::empty());
    } else {
        lemma_split_no_sep(s.drop_last(), sep);
        let r = split_spec(s.drop_last(), sep);
        assert(r.update(r.len() - 1, r.last().push(s.last())) =~= seq![s.drop_last().push(
            s.last(),
        )]);
        assert(s.drop_last().push(s.last()) =~= s);
    }
}

/// Splitting around an explicit separator before a separator-free tail adds
/// the tail as one more field.
pub proof fn lemma_split_concat_sep(x: Seq<char>, y: Seq<char>, sep: char)
    requires
        forall|k: int| 0 <= k < y.len() ==> y[k] != sep,
    ensures
        split_spec(x + seq![sep] + y, sep) == split_spec(x, sep).push(y),
    decreases y.len(),
{
    if y.len() == 0 {
        let s = x + seq![sep] + y;
        assert(s.last() == sep);
        assert(s.drop_last() =~= x);
        assert(y =~= Seq::<char>::empty());
    } else {
        let s = x + seq![sep] + y;
        let y0 = y.drop_last();
        lemma_split_concat_sep(x, y0, sep);
        assert(s.last() == y.last());
        assert(s.drop_last() =~= x + seq![sep] + y0);
        let r = split_spec(x + seq![sep] + y0, sep);
        assert(r == split_spec(x, sep).push(y0));
        assert(r.last() == y0);
        assert(r.update(r.len() - 1, r.last().push(y.last())) =~= split_spec(x, sep).push(
            y0.push(y.last()),
        ));
        assert(y0.push(y.last()) =~= y);
    }
}

/// The split of `s` at the first occurrence of `sep`: the part before it and
/// the part after it, or nothing when `sep` does not occur.
pub open spec fn split_once_spec(s: Seq<char>, sep: char) -> Option<(Seq<char>, Seq<char>)>
    decreases s.len(),
{
    if s.len() == 0 {
        None
    } else if s.first() == sep {
        Some((Seq::<char>::empty(), s.drop_first()))
    } else {
        match split_once_spec(s.drop_first(), sep) {
            None => None,
            Some(p) => Some((seq![s.first()] + p.0, p.1)),
        }
    }
}

pub proof fn lemma_split_once_found(s: Seq<char>, sep: char, i: int)
    requires
        0 <= i < s.len(),
        s[i] == sep,
        forall|k: int| 0 <= k < i ==> s[k] != sep,
    ensures
        split_once_spec(s, sep) == Some((s.take(i), s.skip(i + 1))),
    decreases i,
{
    if i == 0 {
        assert(s.take(0) =~= Seq::<char>::empty());
        assert(s.skip(1) =~= s.drop_first());
    } else {
        lemma_split_once_found(s.drop_first(), sep, i - 1);
        assert(seq![s.first()] + s.drop_first().take(i - 1) =~= s.take(i));
        assert(s.drop_first().skip(i) =~= s.skip(i + 1));
    }
}

proof fn lemma_split_once_none(s: Seq<char>, sep: char)
    requires
        forall|k: int| 0 <= k < s.len() ==> s[k] != sep,
    ensures
        split_once_spec(s, sep) is None,
    decreases s.len(),
{
    if s.len() > 0 {
        lemma_split_once_none(s.drop_first(), sep);
    }
}

/// Splits `s` at the first occurrence of `sep`, if any.
pub fn split_once_str(s: &str, sep: char) -> (r: Option<(String, String)>)
    ensures
        match split_once_spec(s@, sep) {
            None => r is None,
            Some(p) => r is Some && r.unwrap().0@ == p.0 && r.unwrap().1@ == p.1,
        },
{
    let len = s.unicode_len();
    let mut i: usize = 0;
    while i < len && s.get_char(i) != sep
        invariant
            i <= len,
            len == s@.len(),
            forall|k: int| 0 <= k < i ==> s@[k] != sep,
        decreases len - i,
    {
        i = i + 1;
    }
    if i == len {
        proof {
            lemma_split_once_none(s@, sep);
        }
        None
    } else {
        proof {
            lemma_split_once_found(s@, sep, i as int);
            assert(s@.take(i as int) =~= s@.subrange(0, i as int));
            assert(s@.skip(i + 1) =~= s@.subrange(i + 1, len as int));
        }
        let before = s.substring_char(0, i).to_owned();
        let after = s.substring_char(i + 1, len).to_owned();
        Some((before, after))
    }
}

} // verus!
