//! The persisted form of a tag list: a JSON array of strings.
//!
//! The store file keeps each note's tags as one text column holding a JSON
//! array. [`tags_json`] is the canonical notation — compact, with the
//! standard short escapes and `\u00..` for the remaining control
//! characters — and [`encode_tags`] produces exactly it. [`decode_tags`]
//! accepts a stored value exactly when it is the canonical notation of
//! some tag list; anything else is the corrupt record error, never
//! silently an empty set.

use vstd::prelude::*;

use crate::models::StoreError;
use crate::text::{chars_eq, chars_to_string, str_to_chars};

verus! {

/// Relies on `char::from_u32` of std: `Some` exactly for values that are
/// Unicode scalars (at most 0x10FFFF and not in the surrogate gap), holding
/// the character with that code point.
pub assume_specification[ char::from_u32 ](v: u32) -> (r: Option<char>)
    ensures
        r is Some <==> (v < 0xD800 || (0xE000 <= v && v <= 0x10FFFF)),
        r matches Some(c) ==> (c as u32) == v,
;

/// The lowercase hexadecimal digit for a value below 16.
pub open spec fn hex_char(d: int) -> char {
    if d < 10 {
        crate::numtext::digit_char(d)
    } else if d == 10 {
        'a'
    } else if d == 11 {
        'b'
    } else if d == 12 {
        'c'
    } else if d == 13 {
        'd'
    } else if d == 14 {
        'e'
    } else {
        'f'
    }
}

/// How one character appears inside a JSON string literal: the two-character
/// short escapes where JSON has them, `\u00..` for the other control
/// characters, the character itself otherwise.
pub open spec fn json_escape(c: char) -> Seq<char> {
    if c == '"' {
        seq!['\\', '"']
    } else if c == '\\' {
        seq!['\\', '\\']
    } else if c == '\u{8}' {
        seq!['\\', 'b']
    } else if c == '\u{c}' {
        seq!['\\', 'f']
    } else if c == '\n' {
        seq!['\\', 'n']
    } else if c == '\r' {
        seq!['\\', 'r']
    } else if c == '\t' {
        seq!['\\', 't']
    } else if (c as u32) < 32 {
        seq!['\\', 'u', '0', '0', hex_char((c as u32) as int / 16), hex_char((c as u32) as int % 16)]
    } else {
        seq![c]
    }
}

/// Characters that do not stand for themselves in a string literal.
pub open spec fn is_escaped_char(c: char) -> bool {
    c == '"' || c == '\\' || (c as u32) < 32
}

/// A whole string, escaped.
pub open spec fn escape_str(s: Seq<char>) -> Seq<char>
    decreases s.len(),
{
    if s.len() == 0 {
        Seq::empty()
    } else {
        json_escape(s[0]) + escape_str(s.drop_first())
    }
}

/// A JSON string literal.
pub open spec fn quoted(s: Seq<char>) -> Seq<char> {
    seq!['"'] + escape_str(s) + seq!['"']
}

/// The literals after the first one, each preceded by its comma.
pub open spec fn tags_rest(u: Seq<Seq<char>>) -> Seq<char>
    decreases u.len(),
{
    if u.len() == 0 {
        Seq::empty()
    } else {
        seq![','] + quoted(u[0]) + tags_rest(u.drop_first())
    }
}

/// The comma-separated literals inside the array brackets.
pub open spec fn tags_body(tags: Seq<Seq<char>>) -> Seq<char> {
    if tags.len() == 0 {
        Seq::empty()
    } else {
        quoted(tags[0]) + tags_rest(tags.drop_first())
    }
}

/// The canonical JSON notation of a tag list.
pub open spec fn tags_json(tags: Seq<Seq<char>>) -> Seq<char> {
    seq!['['] + tags_body(tags) + seq![']']
}

/// The text starting at some point is a string literal followed by `rest`.
pub open spec fn starts_quoted(s: Seq<char>, x: Seq<char>, rest: Seq<char>) -> bool {
    s == quoted(x) + rest
}

/// Escaping one more character appends its escape.
proof fn lemma_escape_push(s: Seq<char>, c: char)
    ensures
        escape_str(s.push(c)) == escape_str(s) + json_escape(c),
    decreases s.len(),
{
    if s.len() == 0 {
        assert(s.push(c)[0] == c);
        assert(s.push(c).drop_first() =~= s);
        assert(escape_str(s.push(c)) == json_escape(c) + escape_str(s));
        assert(escape_str(s) =~= Seq::<char>::empty());
        assert(escape_str(s.push(c)) =~= escape_str(s) + json_escape(c));
    } else {
        assert(s.push(c)[0] == s[0]);
        assert(s.push(c).drop_first() =~= s.drop_first().push(c));
        lemma_escape_push(s.drop_first(), c);
        assert(escape_str(s.push(c)) == json_escape(s[0]) + escape_str(s.drop_first().push(c)));
        assert(escape_str(s.push(c)) =~= escape_str(s) + json_escape(c));
    }
}

/// One more literal extends the comma-separated run.
proof fn lemma_rest_push(u: Seq<Seq<char>>, x: Seq<char>)
    ensures
        tags_rest(u.push(x)) == tags_rest(u) + seq![','] + quoted(x),
    decreases u.len(),
{
    if u.len() == 0 {
        assert(u.push(x)[0] == x);
        assert(u.push(x).drop_first() =~= u);
        assert(tags_rest(u.push(x)) == seq![','] + quoted(x) + tags_rest(u));
        assert(tags_rest(u) =~= Seq::<char>::empty());
        assert(tags_rest(u.push(x)) =~= tags_rest(u) + seq![','] + quoted(x));
    } else {
        assert(u.push(x)[0] == u[0]);
        assert(u.push(x).drop_first() =~= u.drop_first().push(x));
        lemma_rest_push(u.drop_first(), x);
        assert(tags_rest(u.push(x)) == seq![','] + quoted(u[0]) + tags_rest(
            u.drop_first().push(x),
        ));
        assert(tags_rest(u.push(x)) =~= tags_rest(u) + seq![','] + quoted(x));
    }
}

/// One more tag extends the body, with a comma once the body is nonempty.
proof fn lemma_body_push(t: Seq<Seq<char>>, x: Seq<char>)
    ensures
        t.len() == 0 ==> tags_body(t.push(x)) == quoted(x),
        t.len() > 0 ==> tags_body(t.push(x)) == tags_body(t) + seq![','] + quoted(x),
{
    if t.len() == 0 {
        assert(t.push(x)[0] == x);
        assert(t.push(x).drop_first() =~= t);
        assert(tags_body(t.push(x)) == quoted(x) + tags_rest(t));
        assert(tags_rest(t) =~= Seq::<char>::empty());
        assert(tags_body(t.push(x)) =~= quoted(x));
    } else {
        assert(t.push(x)[0] == t[0]);
        assert(t.push(x).drop_first() =~= t.drop_first().push(x));
        lemma_rest_push(t.drop_first(), x);
        assert(tags_body(t.push(x)) == quoted(t[0]) + tags_rest(t.drop_first().push(x)));
        assert(tags_body(t.push(x)) =~= tags_body(t) + seq![','] + quoted(x));
    }
}

/// The code points of the characters the escape notation is built from.
proof fn lemma_char_codes()
    ensures
        ('"' as u32) == 34,
        ('\\' as u32) == 92,
        ('/' as u32) == 47,
        ('b' as u32) == 98,
        ('f' as u32) == 102,
        ('n' as u32) == 110,
        ('r' as u32) == 114,
        ('t' as u32) == 116,
        ('u' as u32) == 117,
        ('0' as u32) == 48,
        ('1' as u32) == 49,
        ('2' as u32) == 50,
        ('3' as u32) == 51,
        ('4' as u32) == 52,
        ('5' as u32) == 53,
        ('6' as u32) == 54,
        ('7' as u32) == 55,
        ('8' as u32) == 56,
        ('9' as u32) == 57,
        ('a' as u32) == 97,
        ('c' as u32) == 99,
        ('d' as u32) == 100,
        ('e' as u32) == 101,
        ('\u{8}' as u32) == 8,
        ('\u{c}' as u32) == 12,
        ('\n' as u32) == 10,
        ('\r' as u32) == 13,
        ('\t' as u32) == 9,
        ('[' as u32) == 91,
        (']' as u32) == 93,
        (',' as u32) == 44,
{
}

/// An escape's shape: escaped characters open with a backslash, every other
/// character stands alone.
proof fn lemma_escape_shape(c: char)
    ensures
        json_escape(c).len() >= 1,
        is_escaped_char(c) ==> json_escape(c)[0] == '\\' && json_escape(c).len() >= 2,
        !is_escaped_char(c) ==> json_escape(c) == seq![c],
{
    lemma_char_codes();
    if !is_escaped_char(c) {
        assert(json_escape(c) =~= seq![c]);
    }
}

/// The character after the backslash pins down which character was escaped,
/// and the whole escape it came from.
proof fn lemma_escape_tag(c: char)
    requires
        is_escaped_char(c),
    ensures
        json_escape(c)[0] == '\\',
        json_escape(c).len() == 2 || json_escape(c).len() == 6,
        json_escape(c)[1] == '"' ==> c == '"' && json_escape(c).len() == 2,
        json_escape(c)[1] == '\\' ==> c == '\\' && json_escape(c).len() == 2,
        json_escape(c)[1] == 'b' ==> c == '\u{8}' && json_escape(c).len() == 2,
        json_escape(c)[1] == 'f' ==> c == '\u{c}' && json_escape(c).len() == 2,
        json_escape(c)[1] == 'n' ==> c == '\n' && json_escape(c).len() == 2,
        json_escape(c)[1] == 'r' ==> c == '\r' && json_escape(c).len() == 2,
        json_escape(c)[1] == 't' ==> c == '\t' && json_escape(c).len() == 2,
        json_escape(c)[1] == 'u' ==> (c as u32) < 32 && json_escape(c) == seq![
            '\\',
            'u',
            '0',
            '0',
            hex_char((c as u32) as int / 16),
            hex_char((c as u32) as int % 16),
        ],
        json_escape(c)[1] != '/',
{
    lemma_char_codes();
    if c != '"' && c != '\\' && c != '\u{8}' && c != '\u{c}' && c != '\n' && c != '\r' && c
        != '\t' {
        assert(hex_char((c as u32) as int / 16) != '/' && hex_char((c as u32) as int % 16) != '/')
            by {
            lemma_char_codes();
        }
    }
}

/// The numeric value a hexadecimal digit character denotes, with an
/// out-of-range marker for everything else.
pub open spec fn hex_digit_of(c: char) -> int {
    if 48 <= (c as u32) <= 57 {
        (c as u32) - 48
    } else if 97 <= (c as u32) <= 102 {
        (c as u32) - 87
    } else if 65 <= (c as u32) <= 70 {
        (c as u32) - 55
    } else {
        99
    }
}

/// Hexadecimal digits read back as their values.
proof fn lemma_hex_digit_back(d: int)
    requires
        0 <= d < 16,
    ensures
        hex_digit_of(hex_char(d)) == d,
        hex_digit_of('0') == 0,
{
    lemma_char_codes();
    if d < 10 {
        crate::numtext::lemma_digit_char_val(d);
    }
}

/// Skipping in two steps is skipping once.
proof fn lemma_skip_twice(s: Seq<char>, i: int, k: int)
    requires
        0 <= i,
        0 <= k,
        i + k <= s.len(),
    ensures
        s.skip(i).skip(k) == s.skip(i + k),
{
    assert(s.skip(i).skip(k) =~= s.skip(i + k));
}

/// Consuming a known leading segment of the remaining text.
proof fn lemma_advance(s: Seq<char>, i: int, e: Seq<char>, tail: Seq<char>)
    requires
        0 <= i <= s.len(),
        s.skip(i) == e + tail,
    ensures
        i + e.len() <= s.len(),
        s.skip(i + e.len()) == tail,
{
    assert(s.skip(i).len() == s.len() - i);
    assert((e + tail).skip(e.len() as int) =~= tail);
    lemma_skip_twice(s, i, e.len() as int);
}

/// One lowercase hexadecimal digit, executable.
fn hex_char_exec(d: u32) -> (r: char)
    requires
        d < 16,
    ensures
        r == hex_char(d as int),
{
    match d {
        0 => '0',
        1 => '1',
        2 => '2',
        3 => '3',
        4 => '4',
        5 => '5',
        6 => '6',
        7 => '7',
        8 => '8',
        9 => '9',
        10 => 'a',
        11 => 'b',
        12 => 'c',
        13 => 'd',
        14 => 'e',
        _ => 'f',
    }
}

/// Append the escaped form of one character.
fn push_escape_char(out: &mut Vec<char>, c: char)
    ensures
        final(out)@ == old(out)@ + json_escape(c),
{
    if c == '"' {
        out.push('\\');
        out.push('"');
    } else if c == '\\' {
        out.push('\\');
        out.push('\\');
    } else if c == '\u{8}' {
        out.push('\\');
        out.push('b');
    } else if c == '\u{c}' {
        out.push('\\');
        out.push('f');
    } else if c == '\n' {
        out.push('\\');
        out.push('n');
    } else if c == '\r' {
        out.push('\\');
        out.push('r');
    } else if c == '\t' {
        out.push('\\');
        out.push('t');
    } else {
        let cv = c as u32;
        if cv < 32 {
            out.push('\\');
            out.push('u');
            out.push('0');
            out.push('0');
            out.push(hex_char_exec(cv / 16));
            out.push(hex_char_exec(cv % 16));
        } else {
            out.push(c);
        }
    }
    proof {
        assert(out@ =~= old(out)@ + json_escape(c));
    }
}

/// Append the escaped form of a whole string.
fn push_escaped(out: &mut Vec<char>, s: &Vec<char>)
    ensures
        final(out)@ == old(out)@ + escape_str(s@),
{
    let mut j: usize = 0;
    proof {
        assert(s@.take(0) =~= Seq::<char>::empty());
    }
    while j < s.len()
        invariant
            j <= s@.len(),
            out@ == old(out)@ + escape_str(s@.take(j as int)),
        decreases s.len() - j,
    {
        push_escape_char(out, s[j]);
        proof {
            assert(s@.take(j + 1) =~= s@.take(j as int).push(s@[j as int]));
            lemma_escape_push(s@.take(j as int), s@[j as int]);
            assert(out@ =~= old(out)@ + escape_str(s@.take(j + 1)));
        }
        j = j + 1;
    }
    proof {
        assert(s@.take(s@.len() as int) =~= s@);
    }
}

/// Render a tag list in its canonical persisted notation.
#[verifier::loop_isolation(false)]
pub fn encode_tags(tags: &Vec<String>) -> (r: String)
    ensures
        r@ == tags_json(tags.deep_view()),
{
    let ghost dv = tags.deep_view();
    let mut out: Vec<char> = Vec::new();
    out.push('[');
    proof {
        assert(dv.take(0) =~= Seq::<Seq<char>>::empty());
        assert(out@ =~= seq!['['] + tags_body(dv.take(0)));
    }
    let mut i: usize = 0;
    while i < tags.len()
        invariant
            i <= dv.len(),
            out@ == seq!['['] + tags_body(dv.take(i as int)),
        decreases tags.len() - i,
    {
        if i > 0 {
            out.push(',');
        }
        out.push('"');
        let tag_chars = str_to_chars(tags[i].as_str());
        push_escaped(&mut out, &tag_chars);
        out.push('"');
        proof {
            assert(tag_chars@ == dv[i as int]);
            assert(dv.take(i + 1) =~= dv.take(i as int).push(dv[i as int]));
            lemma_body_push(dv.take(i as int), dv[i as int]);
            assert(out@ =~= seq!['['] + tags_body(dv.take(i + 1)));
        }
        i = i + 1;
    }
    out.push(']');
    proof {
        assert(dv.take(dv.len() as int) =~= dv);
        assert(out@ =~= tags_json(dv));
    }
    chars_to_string(&out)
}

/// Read one JSON string literal starting at `start`. Wherever the remaining
/// text is a literal followed by anything, reading succeeds with exactly
/// that literal's characters and stops right after its closing quote; on
/// other text nothing is promised beyond the bounds.
#[verifier::loop_isolation(false)]
#[verifier::rlimit(100)]
fn parse_json_string(chars: &Vec<char>, start: usize) -> (r: Option<(Vec<char>, usize)>)
    requires
        start < chars@.len(),
    ensures
        r matches Some(p) ==> start < p.1 <= chars@.len(),
        forall|x: Seq<char>, rest: Seq<char>|
            #[trigger] starts_quoted(chars@.skip(start as int), x, rest) ==> (r matches Some(p)
                && p.0@ == x && p.1 == start + quoted(x).len()),
{
    let ghost sv = chars@;
    let n = chars.len();
    if chars[start] != '"' {
        proof {
            assert forall|x: Seq<char>, rest: Seq<char>|
                #[trigger] starts_quoted(sv.skip(start as int), x, rest) implies false by {
                assert(sv.skip(start as int)[0] == '"');
            }
        }
        return None;
    }
    let mut acc: Vec<char> = Vec::new();
    let mut i: usize = start + 1;
    proof {
        assert forall|x: Seq<char>, rest: Seq<char>|
            #[trigger] starts_quoted(sv.skip(start as int), x, rest) implies acc@ == x.take(
            acc@.len() as int,
        ) && acc@.len() <= x.len() && sv.skip(i as int) == escape_str(x.skip(acc@.len() as int))
            + seq!['"'] + rest by {
            assert(acc@ =~= x.take(0));
            assert(x.skip(0) =~= x);
            assert(sv.skip(start as int) =~= seq!['"'] + (escape_str(x) + seq!['"'] + rest));
            lemma_advance(sv, start as int, seq!['"'], escape_str(x) + seq!['"'] + rest);
        }
    }
    while i < n
        invariant
            n == sv.len(),
            start < i <= n,
            forall|x: Seq<char>, rest: Seq<char>|
                #[trigger] starts_quoted(sv.skip(start as int), x, rest) ==> acc@ == x.take(
                    acc@.len() as int,
                ) && acc@.len() <= x.len() && sv.skip(i as int) == escape_str(
                    x.skip(acc@.len() as int),
                ) + seq!['"'] + rest,
        decreases n - i,
    {
        let c = chars[i];
        let ghost al = acc@.len() as int;
        proof {
            assert forall|x: Seq<char>, rest: Seq<char>|
                #[trigger] starts_quoted(sv.skip(start as int), x, rest) && x.len() > al implies {
                &&& sv.skip(i as int)[0] == json_escape(x.skip(al)[0])[0]
                &&& json_escape(x.skip(al)[0]).len() >= 2 ==> sv.skip(i as int)[1] == json_escape(
                    x.skip(al)[0],
                )[1]
                &&& x.skip(al).len() > 0
            } by {
                let u = x.skip(al);
                assert(escape_str(u) == json_escape(u[0]) + escape_str(u.drop_first()));
                lemma_escape_shape(u[0]);
            }
        }
        if c == '"' {
            proof {
                assert forall|x: Seq<char>, rest: Seq<char>|
                    #[trigger] starts_quoted(sv.skip(start as int), x, rest) implies acc@ == x && i
                    + 1 == start + quoted(x).len() by {
                    if x.len() > al {
                        let u = x.skip(al);
                        lemma_escape_shape(u[0]);
                        lemma_char_codes();
                        if is_escaped_char(u[0]) {
                            assert(sv.skip(i as int)[0] == '\\');
                        } else {
                            assert(sv.skip(i as int)[0] == u[0]);
                        }
                        assert(false);
                    }
                    assert(acc@ =~= x);
                    assert(x.skip(al) =~= Seq::<char>::empty());
                    assert(sv.skip(i as int).len() == 1 + rest.len());
                    assert(sv.skip(start as int).len() == quoted(x).len() + rest.len());
                }
            }
            return Some((acc, i + 1));
        }
        if c == '\\' {
            if i + 1 >= n {
                proof {
                    assert forall|x: Seq<char>, rest: Seq<char>|
                        #[trigger] starts_quoted(sv.skip(start as int), x, rest) implies false by {
                        if x.len() > al {
                            let u = x.skip(al);
                            lemma_escape_shape(u[0]);
                            if is_escaped_char(u[0]) {
                                assert(sv.skip(i as int).len() >= 3);
                            } else {
                                assert(sv.skip(i as int)[0] == u[0]);
                                lemma_char_codes();
                                assert(false);
                            }
                        } else {
                            assert(x.skip(al) =~= Seq::<char>::empty());
                            assert(sv.skip(i as int)[0] == '"');
                        }
                    }
                }
                return None;
            }
            let e = chars[i + 1];
            proof {
                assert forall|x: Seq<char>, rest: Seq<char>|
                    #[trigger] starts_quoted(sv.skip(start as int), x, rest) implies x.len() > al
                    && is_escaped_char(x.skip(al)[0]) && json_escape(x.skip(al)[0])[1] == e by {
                    if x.len() > al {
                        let u = x.skip(al);
                        lemma_escape_shape(u[0]);
                        if !is_escaped_char(u[0]) {
                            assert(sv.skip(i as int)[0] == u[0]);
                            lemma_char_codes();
                            assert(false);
                        }
                        assert(sv.skip(i as int)[1] == e);
                    } else {
                        assert(x.skip(al) =~= Seq::<char>::empty());
                        assert(sv.skip(i as int)[0] == '"');
                        lemma_char_codes();
                        assert(false);
                    }
                }
            }
            if e == '"' || e == '\\' {
                proof {
                    step_short_escape(sv, start as int, i as int, acc@, e, e);
                }
                acc.push(e);
                i = i + 2;
            } else if e == 'b' {
                proof {
                    step_short_escape(sv, start as int, i as int, acc@, 'b', '\u{8}');
                }
                acc.push('\u{8}');
                i = i + 2;
            } else if e == 'f' {
                proof {
                    step_short_escape(sv, start as int, i as int, acc@, 'f', '\u{c}');
                }
                acc.push('\u{c}');
                i = i + 2;
            } else if e == 'n' {
                proof {
                    step_short_escape(sv, start as int, i as int, acc@, 'n', '\n');
                }
                acc.push('\n');
                i = i + 2;
            } else if e == 'r' {
                proof {
                    step_short_escape(sv, start as int, i as int, acc@, 'r', '\r');
                }
                acc.push('\r');
                i = i + 2;
            } else if e == 't' {
                proof {
                    step_short_escape(sv, start as int, i as int, acc@, 't', '\t');
                }
                acc.push('\t');
                i = i + 2;
            } else if e == '/' {
                proof {
                    assert forall|x: Seq<char>, rest: Seq<char>|
                        #[trigger] starts_quoted(sv.skip(start as int), x, rest) implies false by {
                        lemma_escape_tag(x.skip(al)[0]);
                    }
                }
                acc.push('/');
                i = i + 2;
            } else if e == 'u' {
                if n - (i + 1) < 5 {
                    proof {
                        assert forall|x: Seq<char>, rest: Seq<char>|
                            #[trigger] starts_quoted(sv.skip(start as int), x, rest) implies false by {
                            lemma_escape_tag(x.skip(al)[0]);
                            assert(sv.skip(i as int).len() >= 7);
                        }
                    }
                    return None;
                }
                proof {
                    assert forall|x: Seq<char>, rest: Seq<char>|
                        #[trigger] starts_quoted(sv.skip(start as int), x, rest) implies {
                        let u0 = x.skip(al)[0];
                        &&& (u0 as u32) < 32
                        &&& sv[i + 2] == '0'
                        &&& sv[i + 3] == '0'
                        &&& sv[i + 4] == hex_char((u0 as u32) as int / 16)
                        &&& sv[i + 5] == hex_char((u0 as u32) as int % 16)
                    } by {
                        let u0 = x.skip(al)[0];
                        lemma_escape_tag(u0);
                        assert(sv.skip(i as int)[2] == json_escape(u0)[2]);
                        assert(sv.skip(i as int)[3] == json_escape(u0)[3]);
                        assert(sv.skip(i as int)[4] == json_escape(u0)[4]);
                        assert(sv.skip(i as int)[5] == json_escape(u0)[5]);
                    }
                }
                let mut v: u32 = 0;
                let mut k: usize = 0;
                while k < 4
                    invariant
                        k <= 4,
                        n == sv.len(),
                        i + 5 < n,
                        v < (if k == 0 {
                            1u32
                        } else if k == 1 {
                            16u32
                        } else if k == 2 {
                            256u32
                        } else if k == 3 {
                            4096u32
                        } else {
                            65536u32
                        }),
                        forall|j: int| 0 <= j < k ==> hex_digit_of(#[trigger] sv[i + 2 + j]) < 16,
                        k == 1 ==> v == hex_digit_of(sv[i + 2]),
                        k == 2 ==> v == hex_digit_of(sv[i + 2]) * 16 + hex_digit_of(sv[i + 3]),
                        k == 3 ==> v == (hex_digit_of(sv[i + 2]) * 16 + hex_digit_of(sv[i + 3]))
                            * 16 + hex_digit_of(sv[i + 4]),
                        k == 4 ==> v == ((hex_digit_of(sv[i + 2]) * 16 + hex_digit_of(sv[i + 3]))
                            * 16 + hex_digit_of(sv[i + 4])) * 16 + hex_digit_of(sv[i + 5]),
                    decreases 4 - k,
                {
                    let h = chars[i + 2 + k];
                    let hv = h as u32;
                    let d: u32 = if 48 <= hv && hv <= 57 {
                        hv - 48
                    } else if 97 <= hv && hv <= 102 {
                        hv - 87
                    } else if 65 <= hv && hv <= 70 {
                        hv - 55
                    } else {
                        proof {
                            assert forall|x: Seq<char>, rest: Seq<char>|
                                #[trigger] starts_quoted(sv.skip(start as int), x, rest) implies false by {
                                let u0 = x.skip(al)[0];
                                lemma_escape_tag(u0);
                                lemma_hex_digit_back((u0 as u32) as int / 16);
                                lemma_hex_digit_back((u0 as u32) as int % 16);
                                lemma_char_codes();
                                assert(hex_digit_of(sv[i + 2 + k]) < 16);
                            }
                        }
                        return None;
                    };
                    proof {
                        assert(d == hex_digit_of(sv[i + 2 + k]));
                    }
                    v = v * 16 + d;
                    k = k + 1;
                }
                match char::from_u32(v) {
                    Some(decoded) => {
                        proof {
                            step_unicode_escape(sv, start as int, i as int, acc@, v, decoded);
                        }
                        acc.push(decoded);
                        i = i + 6;
                    }
                    None => {
                        proof {
                            assert forall|x: Seq<char>, rest: Seq<char>|
                                #[trigger] starts_quoted(sv.skip(start as int), x, rest) implies false by {
                                let u0 = x.skip(al)[0];
                                lemma_escape_tag(u0);
                                lemma_hex_digit_back((u0 as u32) as int / 16);
                                lemma_hex_digit_back((u0 as u32) as int % 16);
                                assert(v == u0 as u32);
                            }
                        }
                        return None;
                    }
                }
            } else {
                proof {
                    assert forall|x: Seq<char>, rest: Seq<char>|
                        #[trigger] starts_quoted(sv.skip(start as int), x, rest) implies false by {
                        lemma_escape_tag(x.skip(al)[0]);
                        lemma_char_codes();
                    }
                }
                return None;
            }
        } else {
            proof {
                assert forall|x: Seq<char>, rest: Seq<char>|
                    #[trigger] starts_quoted(sv.skip(start as int), x, rest) implies x.len() > al
                    && x.skip(al)[0] == c && !is_escaped_char(c) by {
                    if x.len() > al {
                        let u = x.skip(al);
                        lemma_escape_shape(u[0]);
                        if is_escaped_char(u[0]) {
                            assert(sv.skip(i as int)[0] == '\\');
                            assert(false);
                        }
                        assert(sv.skip(i as int)[0] == u[0]);
                    } else {
                        assert(x.skip(al) =~= Seq::<char>::empty());
                        assert(sv.skip(i as int)[0] == '"');
                        assert(false);
                    }
                }
                assert forall|x: Seq<char>, rest: Seq<char>|
                    #[trigger] starts_quoted(sv.skip(start as int), x, rest) implies acc@.push(c)
                    == x.take(al + 1) && al + 1 <= x.len() && sv.skip(i + 1) == escape_str(
                    x.skip(al + 1),
                ) + seq!['"'] + rest by {
                    let u = x.skip(al);
                    assert(x[al] == u[0]);
                    assert(acc@.push(c) =~= x.take(al + 1));
                    lemma_escape_shape(u[0]);
                    assert(u.drop_first() =~= x.skip(al + 1));
                    assert(escape_str(u) == seq![c] + escape_str(x.skip(al + 1)));
                    assert(sv.skip(i as int) =~= seq![c] + (escape_str(x.skip(al + 1))
                        + seq!['"'] + rest));
                    lemma_advance(
                        sv,
                        i as int,
                        seq![c],
                        escape_str(x.skip(al + 1)) + seq!['"'] + rest,
                    );
                }
            }
            acc.push(c);
            i = i + 1;
        }
    }
    proof {
        assert forall|x: Seq<char>, rest: Seq<char>|
            #[trigger] starts_quoted(sv.skip(start as int), x, rest) implies false by {
            assert(sv.skip(i as int).len() >= 1);
        }
    }
    None
}

/// One short escape consumed: the hypothesis-relative state advances by the
/// decoded character and its two-character escape.
proof fn step_short_escape(sv: Seq<char>, start: int, i: int, acc: Seq<char>, tag: char, d: char)
    requires
        0 <= start,
        0 <= i <= sv.len(),
        forall|x: Seq<char>, rest: Seq<char>|
            #[trigger] starts_quoted(sv.skip(start), x, rest) ==> acc == x.take(acc.len() as int)
                && acc.len() <= x.len() && sv.skip(i) == escape_str(x.skip(acc.len() as int))
                + seq!['"'] + rest,
        forall|x: Seq<char>, rest: Seq<char>|
            #[trigger] starts_quoted(sv.skip(start), x, rest) ==> x.len() > acc.len()
                && is_escaped_char(x.skip(acc.len() as int)[0]) && json_escape(
                x.skip(acc.len() as int)[0],
            )[1] == tag,
        tag == '"' || tag == '\\' || tag == 'b' || tag == 'f' || tag == 'n' || tag == 'r' || tag
            == 't',
        (tag == '"' ==> d == '"') && (tag == '\\' ==> d == '\\') && (tag == 'b' ==> d == '\u{8}')
            && (tag == 'f' ==> d == '\u{c}') && (tag == 'n' ==> d == '\n') && (tag == 'r' ==> d
            == '\r') && (tag == 't' ==> d == '\t'),
    ensures
        forall|x: Seq<char>, rest: Seq<char>|
            #[trigger] starts_quoted(sv.skip(start), x, rest) ==> acc.push(d) == x.take(
                acc.len() as int + 1,
            ) && acc.len() + 1 <= x.len() && sv.skip(i + 2) == escape_str(
                x.skip(acc.len() as int + 1),
            ) + seq!['"'] + rest,
{
    let al = acc.len() as int;
    assert forall|x: Seq<char>, rest: Seq<char>|
        #[trigger] starts_quoted(sv.skip(start), x, rest) implies acc.push(d) == x.take(al + 1)
        && al + 1 <= x.len() && sv.skip(i + 2) == escape_str(x.skip(al + 1)) + seq!['"']
        + rest by {
        let u = x.skip(al);
        lemma_escape_tag(u[0]);
        assert(u[0] == d);
        assert(x[al] == u[0]);
        assert(acc.push(d) =~= x.take(al + 1));
        assert(u.drop_first() =~= x.skip(al + 1));
        assert(escape_str(u) == json_escape(d) + escape_str(x.skip(al + 1)));
        assert(json_escape(d).len() == 2);
        assert(sv.skip(i) =~= json_escape(d) + (escape_str(x.skip(al + 1)) + seq!['"'] + rest));
        lemma_advance(sv, i, json_escape(d), escape_str(x.skip(al + 1)) + seq!['"'] + rest);
    }
}

/// One `\u00..` escape consumed: the computed code point is the escaped
/// character, and the state advances past the six characters.
proof fn step_unicode_escape(sv: Seq<char>, start: int, i: int, acc: Seq<char>, v: u32, decoded: char)
    requires
        0 <= start,
        0 <= i <= sv.len(),
        forall|x: Seq<char>, rest: Seq<char>|
            #[trigger] starts_quoted(sv.skip(start), x, rest) ==> acc == x.take(acc.len() as int)
                && acc.len() <= x.len() && sv.skip(i) == escape_str(x.skip(acc.len() as int))
                + seq!['"'] + rest,
        forall|x: Seq<char>, rest: Seq<char>|
            #[trigger] starts_quoted(sv.skip(start), x, rest) ==> x.len() > acc.len()
                && is_escaped_char(x.skip(acc.len() as int)[0]) && json_escape(
                x.skip(acc.len() as int)[0],
            )[1] == 'u',
        forall|x: Seq<char>, rest: Seq<char>|
            #[trigger] starts_quoted(sv.skip(start), x, rest) ==> v == ((hex_digit_of(sv[i + 2])
                * 16 + hex_digit_of(sv[i + 3])) * 16 + hex_digit_of(sv[i + 4])) * 16
                + hex_digit_of(sv[i + 5]),
        (decoded as u32) == v,
    ensures
        forall|x: Seq<char>, rest: Seq<char>|
            #[trigger] starts_quoted(sv.skip(start), x, rest) ==> acc.push(decoded) == x.take(
                acc.len() as int + 1,
            ) && acc.len() + 1 <= x.len() && sv.skip(i + 6) == escape_str(
                x.skip(acc.len() as int + 1),
            ) + seq!['"'] + rest,
{
    let al = acc.len() as int;
    assert forall|x: Seq<char>, rest: Seq<char>|
        #[trigger] starts_quoted(sv.skip(start), x, rest) implies acc.push(decoded) == x.take(
        al + 1,
    ) && al + 1 <= x.len() && sv.skip(i + 6) == escape_str(x.skip(al + 1)) + seq!['"'] + rest by {
        let u = x.skip(al);
        let u0 = u[0];
        lemma_escape_tag(u0);
        assert(escape_str(u) == json_escape(u0) + escape_str(u.drop_first()));
        assert(json_escape(u0).len() == 6);
        assert(sv.skip(i).len() == sv.len() - i);
        assert(sv.skip(i).len() >= 7);
        assert(sv[i + 2] == sv.skip(i)[2]);
        assert(sv[i + 3] == sv.skip(i)[3]);
        assert(sv[i + 4] == sv.skip(i)[4]);
        assert(sv[i + 5] == sv.skip(i)[5]);
        assert(sv[i + 2] == json_escape(u0)[2]);
        assert(sv[i + 3] == json_escape(u0)[3]);
        assert(sv[i + 4] == json_escape(u0)[4]);
        assert(sv[i + 5] == json_escape(u0)[5]);
        assert(json_escape(u0)[2] == '0' && json_escape(u0)[3] == '0');
        assert(json_escape(u0)[4] == hex_char((u0 as u32) as int / 16));
        assert(json_escape(u0)[5] == hex_char((u0 as u32) as int % 16));
        lemma_hex_digit_back((u0 as u32) as int / 16);
        lemma_hex_digit_back((u0 as u32) as int % 16);
        assert(hex_digit_of(sv[i + 2]) == 0);
        assert(hex_digit_of(sv[i + 3]) == 0);
        assert(hex_digit_of(sv[i + 4]) == (u0 as u32) as int / 16);
        assert(hex_digit_of(sv[i + 5]) == (u0 as u32) as int % 16);
        assert(v == u0 as u32);
        vstd::utf8::char_u32_cast(u0, v);
        vstd::utf8::char_u32_cast(decoded, v);
        assert(decoded == u0);
        assert(x[al] == u0);
        assert(acc.push(decoded) =~= x.take(al + 1));
        assert(u.drop_first() =~= x.skip(al + 1));
        assert(json_escape(u0).len() == 6);
        assert(sv.skip(i) =~= json_escape(u0) + (escape_str(x.skip(al + 1)) + seq!['"'] + rest));
        lemma_advance(sv, i, json_escape(u0), escape_str(x.skip(al + 1)) + seq!['"'] + rest);
    }
}

/// Read a JSON array of strings. Wherever the whole text is the canonical
/// notation of a tag list, reading succeeds with exactly that list.
#[verifier::rlimit(100)]
fn parse_tags_raw(chars: &Vec<char>) -> (r: Option<Vec<String>>)
    ensures
        forall|t: Seq<Seq<char>>|
            chars@ == #[trigger] tags_json(t) ==> (r matches Some(v) && v.deep_view() == t),
{
    let ghost sv = chars@;
    let n = chars.len();
    if n == 0 || chars[0] != '[' {
        proof {
            assert forall|t: Seq<Seq<char>>| sv == #[trigger] tags_json(t) implies false by {
                assert(tags_json(t)[0] == '[');
                assert(tags_json(t).len() >= 2);
            }
        }
        return None;
    }
    let mut i: usize = 1;
    let mut tags: Vec<String> = Vec::new();
    let mut expect_item: bool = false;
    proof {
        assert forall|t: Seq<Seq<char>>| sv == #[trigger] tags_json(t) implies tags.deep_view()
            == t.take(0) && sv.skip(1) == tags_body(t) + seq![']'] by {
            assert(tags.deep_view() =~= t.take(0));
            assert(sv.skip(0) =~= sv);
            assert(sv.skip(0) =~= seq!['['] + (tags_body(t) + seq![']']));
            lemma_advance(sv, 0, seq!['['], tags_body(t) + seq![']']);
        }
    }
    loop
        invariant_except_break
            !expect_item ==> i == 1 && tags.deep_view().len() == 0,
            forall|t: Seq<Seq<char>>|
                sv == #[trigger] tags_json(t) ==> tags.deep_view().len() <= t.len()
                    && tags.deep_view() == t.take(tags.deep_view().len() as int) && (if expect_item {
                    tags.deep_view().len() < t.len() && sv.skip(i as int) == quoted(
                        t[tags.deep_view().len() as int],
                    ) + tags_rest(t.skip(tags.deep_view().len() as int + 1)) + seq![']']
                } else {
                    sv.skip(i as int) == tags_body(t) + seq![']']
                }),
        invariant
            sv == chars@,
            n == sv.len(),
            1 <= i <= n,
        ensures
            i <= n,
            forall|t: Seq<Seq<char>>|
                sv == #[trigger] tags_json(t) ==> tags.deep_view() == t && i == n,
        decreases n - i,
    {
        let ghost k = tags.deep_view().len() as int;
        if i >= n {
            proof {
                assert forall|t: Seq<Seq<char>>| sv == #[trigger] tags_json(t) implies false by {
                    assert(sv.skip(i as int).len() >= 1);
                }
            }
            return None;
        }
        let c = chars[i];
        if !expect_item && c == ']' {
            proof {
                assert forall|t: Seq<Seq<char>>| sv == #[trigger] tags_json(t) implies tags.deep_view()
                    == t && i + 1 == n by {
                    if t.len() > 0 {
                        assert(sv.skip(i as int)[0] == quoted(t[0])[0]);
                        lemma_char_codes();
                        assert(false);
                    }
                    assert(tags.deep_view() =~= t);
                    assert(sv.skip(i as int).len() == 1);
                }
            }
            i = i + 1;
            break;
        }
        proof {
            assert forall|t: Seq<Seq<char>>| sv == #[trigger] tags_json(t) implies k < t.len()
                && starts_quoted(sv.skip(i as int), t[k], tags_rest(t.skip(k + 1)) + seq![']']) by {
                if expect_item {
                    assert(sv.skip(i as int) =~= quoted(t[k]) + (tags_rest(t.skip(k + 1))
                        + seq![']']));
                } else {
                    if t.len() == 0 {
                        assert(sv.skip(i as int) =~= seq![']']);
                        assert(sv.skip(i as int)[0] == ']');
                        assert(false);
                    }
                    assert(tags_body(t) == quoted(t[0]) + tags_rest(t.drop_first()));
                    assert(t.drop_first() =~= t.skip(1));
                    assert(sv.skip(i as int) =~= quoted(t[0]) + (tags_rest(t.skip(1))
                        + seq![']']));
                }
            }
        }
        match parse_json_string(chars, i) {
            None => {
                proof {
                    assert forall|t: Seq<Seq<char>>| sv == #[trigger] tags_json(t) implies false by {
                        assert(starts_quoted(
                            sv.skip(i as int),
                            t[k],
                            tags_rest(t.skip(k + 1)) + seq![']'],
                        ));
                    }
                }
                return None;
            }
            Some((item, ni)) => {
                let ghost prev = tags.deep_view();
                let item_string = chars_to_string(&item);
                let ghost iv = item_string@;
                tags.push(item_string);
                proof {
                    assert(tags.deep_view() =~= prev.push(iv));
                    assert forall|t: Seq<Seq<char>>| sv == #[trigger] tags_json(t) implies
                        tags.deep_view() == t.take(k + 1) && k + 1 <= t.len() && sv.skip(
                        ni as int,
                    ) == tags_rest(t.skip(k + 1)) + seq![']'] by {
                        assert(starts_quoted(
                            sv.skip(i as int),
                            t[k],
                            tags_rest(t.skip(k + 1)) + seq![']'],
                        ));
                        assert(iv == t[k]);
                        assert(prev.push(iv) =~= t.take(k + 1));
                        assert(sv.skip(i as int) == quoted(t[k]) + (tags_rest(t.skip(k + 1))
                            + seq![']']));
                        lemma_advance(
                            sv,
                            i as int,
                            quoted(t[k]),
                            tags_rest(t.skip(k + 1)) + seq![']'],
                        );
                    }
                }
                i = ni;
            }
        }
        if i >= n {
            proof {
                assert forall|t: Seq<Seq<char>>| sv == #[trigger] tags_json(t) implies false by {
                    assert(sv.skip(i as int).len() >= 1);
                }
            }
            return None;
        }
        let c2 = chars[i];
        if c2 == ',' {
            proof {
                assert forall|t: Seq<Seq<char>>| sv == #[trigger] tags_json(t) implies k + 1
                    < t.len() && sv.skip(i + 1) == quoted(t[k + 1]) + tags_rest(t.skip(k + 2))
                    + seq![']'] by {
                    if t.skip(k + 1).len() == 0 {
                        assert(tags_rest(t.skip(k + 1)) =~= Seq::<char>::empty());
                        assert(sv.skip(i as int) =~= seq![']']);
                        lemma_char_codes();
                        assert(false);
                    }
                    let u = t.skip(k + 1);
                    assert(tags_rest(u) == seq![','] + quoted(u[0]) + tags_rest(u.drop_first()));
                    assert(u[0] == t[k + 1]);
                    assert(u.drop_first() =~= t.skip(k + 2));
                    assert(sv.skip(i as int) =~= seq![','] + (quoted(t[k + 1]) + tags_rest(
                        t.skip(k + 2),
                    ) + seq![']']));
                    lemma_advance(
                        sv,
                        i as int,
                        seq![','],
                        quoted(t[k + 1]) + tags_rest(t.skip(k + 2)) + seq![']'],
                    );
                }
            }
            expect_item = true;
            i = i + 1;
        } else if c2 == ']' {
            proof {
                assert forall|t: Seq<Seq<char>>| sv == #[trigger] tags_json(t) implies tags.deep_view()
                    == t && i + 1 == n by {
                    if t.skip(k + 1).len() > 0 {
                        let u = t.skip(k + 1);
                        assert(tags_rest(u) == seq![','] + quoted(u[0]) + tags_rest(
                            u.drop_first(),
                        ));
                        assert(sv.skip(i as int)[0] == ',');
                        lemma_char_codes();
                        assert(false);
                    }
                    assert(tags_rest(t.skip(k + 1)) =~= Seq::<char>::empty());
                    assert(t.take(k + 1) =~= t);
                    assert(sv.skip(i as int) =~= seq![']']);
                    assert(sv.skip(i as int).len() == 1);
                }
            }
            i = i + 1;
            break;
        } else {
            proof {
                assert forall|t: Seq<Seq<char>>| sv == #[trigger] tags_json(t) implies false by {
                    if t.skip(k + 1).len() == 0 {
                        assert(tags_rest(t.skip(k + 1)) =~= Seq::<char>::empty());
                        assert(sv.skip(i as int) =~= seq![']']);
                        assert(sv.skip(i as int)[0] == ']');
                    } else {
                        let u = t.skip(k + 1);
                        assert(tags_rest(u) == seq![','] + quoted(u[0]) + tags_rest(
                            u.drop_first(),
                        ));
                        assert(sv.skip(i as int)[0] == ',');
                    }
                }
            }
            return None;
        }
    }
    if i < chars.len() {
        return None;
    }
    Some(tags)
}

/// Decode a persisted tag list: accepted exactly when the value is the
/// canonical notation of the tag list that comes back, and anything else —
/// and only that — is the fatal corrupt-record error, never an empty set.
pub fn decode_tags(s: &str) -> (r: Result<Vec<String>, StoreError>)
    ensures
        r matches Ok(v) ==> s@ == tags_json(v.deep_view()),
        r matches Err(e) ==> e == StoreError::CorruptRecord && forall|t: Seq<Seq<char>>|
            s@ != #[trigger] tags_json(t),
{
    let chars = str_to_chars(s);
    match parse_tags_raw(&chars) {
        None => {
            proof {
                assert forall|t: Seq<Seq<char>>| s@ != #[trigger] tags_json(t) by {
                    if s@ == tags_json(t) {
                        assert(false);
                    }
                }
            }
            Err(StoreError::CorruptRecord)
        }
        Some(v) => {
            let re = encode_tags(&v);
            let re_chars = str_to_chars(re.as_str());
            if chars_eq(&re_chars, &chars) {
                Ok(v)
            } else {
                proof {
                    assert forall|t: Seq<Seq<char>>| s@ != #[trigger] tags_json(t) by {
                        if s@ == tags_json(t) {
                            assert(v.deep_view() == t);
                            assert(re@ == s@);
                            assert(false);
                        }
                    }
                }
                Err(StoreError::CorruptRecord)
            }
        }
    }
}

} // verus!
