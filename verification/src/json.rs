//! Rendering of the outgoing JSON payloads: string literals with the
//! standard escapes, objects of string-keyed members, and arrays of
//! strings, each specified as a function of the rendered values.

use vstd::prelude::*;
use crate::text::push_char;

verus! {

/// The hexadecimal digit for a value below sixteen.
pub open spec fn hex_digit(n: nat) -> char {
    if n == 0 {
        '0'
    } else if n == 1 {
        '1'
    } else if n == 2 {
        '2'
    } else if n == 3 {
        '3'
    } else if n == 4 {
        '4'
    } else if n == 5 {
        '5'
    } else if n == 6 {
        '6'
    } else if n == 7 {
        '7'
    } else if n == 8 {
        '8'
    } else if n == 9 {
        '9'
    } else if n == 10 {
        'a'
    } else if n == 11 {
        'b'
    } else if n == 12 {
        'c'
    } else if n == 13 {
        'd'
    } else if n == 14 {
        'e'
    } else {
        'f'
    }
}

fn hex_digit_exec(n: u32) -> (c: char)
    requires
        n < 16,
    ensures
        c == hex_digit(n as nat),
{
    match n {
        0 => '0',
        1 => '1',
        2 => '2',
        3 => '3',
        4 => '4',
        5 => '5',
        6 => '6',
        7 => '7',
        8 => '8',
        9 => '9',
        10 => 'a',
        11 => 'b',
        12 => 'c',
        13 => 'd',
        14 => 'e',
        _ => 'f',
    }
}

/// How one character is written inside a JSON string literal.
pub open spec fn escape_char(c: char) -> Seq<char> {
    if c == '"' {
        seq!['\\', '"']
    } else if c == '\\' {
        seq!['\\', '\\']
    } else if c == '\n' {
        seq!['\\', 'n']
    } else if c == '\r' {
        seq!['\\', 'r']
    } else if c == '\t' {
        seq!['\\', 't']
    } else if (c as u32) < 0x20 {
        seq!['\\', 'u', '0', '0', hex_digit((c as u32 / 16) as nat), hex_digit((c as u32 % 16) as nat)]
    } else {
        seq![c]
    }
}

/// The characters of `s`, each escaped for a JSON string literal.
pub open spec fn escaped(s: Seq<char>) -> Seq<char>
    decreases s.len(),
{
    if s.len() == 0 {
        Seq::empty()
    } else {
        escaped(s.drop_last()) + escape_char(s.last())
    }
}

/// The JSON string literal denoting `s`.
pub open spec fn string_text(s: Seq<char>) -> Seq<char> {
    seq!['"'] + escaped(s) + seq!['"']
}

/// One rendered object member: a string-literal key, a colon, and the
/// member's already-rendered value text.
pub open spec fn member_text(m: (Seq<char>, Seq<char>)) -> Seq<char> {
    string_text(m.0) + seq![':'] + m.1
}

/// The members of an object, joined with commas.
pub open spec fn members_text(ms: Seq<(Seq<char>, Seq<char>)>) -> Seq<char>
    decreases ms.len(),
{
    if ms.len() == 0 {
        Seq::empty()
    } else if ms.len() == 1 {
        member_text(ms[0])
    } else {
        members_text(ms.drop_last()) + seq![','] + member_text(ms.last())
    }
}

/// The JSON object with the given members, in order.
pub open spec fn object_text(ms: Seq<(Seq<char>, Seq<char>)>) -> Seq<char> {
    seq!['{'] + members_text(ms) + seq!['}']
}

/// The elements of an array of strings, joined with commas.
pub open spec fn elements_text(ss: Seq<Seq<char>>) -> Seq<char>
    decreases ss.len(),
{
    if ss.len() == 0 {
        Seq::empty()
    } else if ss.len() == 1 {
        string_text(ss[0])
    } else {
        elements_text(ss.drop_last()) + seq![','] + string_text(ss.last())
    }
}

/// The JSON array holding the given strings, in order.
pub open spec fn array_text(ss: Seq<Seq<char>>) -> Seq<char> {
    seq!['['] + elements_text(ss) + seq![']']
}

/// Appending one more member extends the joined text, with a comma once a
/// member already stands before it.
pub proof fn lemma_members_text_push(ms: Seq<(Seq<char>, Seq<char>)>, m: (Seq<char>, Seq<char>))
    ensures
        members_text(ms.push(m)) == members_text(ms) + (if ms.len() == 0 {
            Seq::<char>::empty()
        } else {
            seq![',']
        }) + member_text(m),
{
    assert(ms.push(m).drop_last() =~= ms);
    assert(ms.push(m).last() == m);
    if ms.len() == 0 {
        assert(ms.push(m)[0] == m);
        assert(members_text(ms.push(m)) =~= members_text(ms) + Seq::<char>::empty()
            + member_text(m));
    }
}

/// The array analogue of `lemma_members_text_push`.
pub proof fn lemma_elements_text_push(ss: Seq<Seq<char>>, s: Seq<char>)
    ensures
        elements_text(ss.push(s)) == elements_text(ss) + (if ss.len() == 0 {
            Seq::<char>::empty()
        } else {
            seq![',']
        }) + string_text(s),
{
    assert(ss.push(s).drop_last() =~= ss);
    assert(ss.push(s).last() == s);
    if ss.len() == 0 {
        assert(ss.push(s)[0] == s);
        assert(elements_text(ss.push(s)) =~= elements_text(ss) + Seq::<char>::empty()
            + string_text(s));
    }
}

/// Appends the JSON string literal denoting `s` to `out`.
pub fn append_string_text(out: &mut String, s: &str)
    ensures
        final(out)@ == old(out)@ + string_text(s@),
{
    push_char(out, '"');
    let len = s.unicode_len();
    let mut i: usize = 0;
    while i < len
        invariant
            i <= len,
            len == s@.len(),
            out@ == old(out)@ + seq!['"'] + escaped(s@.take(i as int)),
        decreases len - i,
    {
        let ghost done = s@.take(i as int);
        let c = s.get_char(i);
        if c == '"' {
            push_char(out, '\\');
            push_char(out, '"');
        } else if c == '\\' {
            push_char(out, '\\');
            push_char(out, '\\');
        } else if c == '\n' {
            push_char(out, '\\');
            push_char(out, 'n');
        } else if c == '\r' {
            push_char(out, '\\');
            push_char(out, 'r');
        } else if c == '\t' {
            push_char(out, '\\');
            push_char(out, 't');
        } else if (c as u32) < 0x20 {
            push_char(out, '\\');
            push_char(out, 'u');
            push_char(out, '0');
            push_char(out, '0');
            push_char(out, hex_digit_exec(c as u32 / 16));
            push_char(out, hex_digit_exec(c as u32 % 16));
        } else {
            push_char(out, c);
        }
        proof {
            assert(s@.take(i + 1).drop_last() =~= done);
            assert(s@.take(i + 1).last() == c);
            assert(escaped(s@.take(i + 1)) == escaped(done) + escape_char(c));
            assert(out@ =~= old(out)@ + seq!['"'] + escaped(s@.take(i + 1)));
        }
        i = i + 1;
    }
    proof {
        assert(s@.take(len as int) =~= s@);
    }
    push_char(out, '"');
    proof {
        assert(out@ =~= old(out)@ + string_text(s@));
    }
}

} // verus!
