//! Character-level helpers shared by the rest of the crate.
//!
//! Exec code in this crate works on `Vec<char>` so that every step is visible
//! to the verifier; these functions convert between `String`/`&str` and
//! `Vec<char>` and provide the comparisons the store's logic needs
//! (equality, prefix tests, lexicographic order, substring containment).

use vstd::prelude::*;
use vstd::std_specs::iter::IteratorSpec;

verus! {

broadcast use vstd::string::group_string_axioms;

/// Relies on `String::push`: appends one character to the string.
pub assume_specification[ String::push ](s: &mut String, ch: char)
    ensures
        final(s)@ == old(s)@.push(ch),
;

/// Collect the characters of a string slice into a vector.
pub fn str_to_chars(s: &str) -> (r: Vec<char>)
    ensures
        r@ == s@,
{
    let mut r: Vec<char> = Vec::new();
    let mut it = s.chars();
    loop
        invariant
            r@ + it.remaining() == s@,
            it.decrease() is Some,
        ensures
            r@ == s@,
        decreases it.decrease()->0,
    {
        match it.next() {
            Some(c) => {
                r.push(c);
                proof {
                    assert(r@ + it.remaining() =~= s@);
                }
            }
            None => {
                proof {
                    assert(r@ + it.remaining() =~= r@);
                }
                break;
            }
        }
    }
    r
}

/// Build a `String` out of a character vector.
pub fn chars_to_string(v: &Vec<char>) -> (r: String)
    ensures
        r@ == v@,
{
    let mut r = String::new();
    let mut i: usize = 0;
    while i < v.len()
        invariant
            i <= v.len(),
            r@ == v@.subrange(0, i as int),
        decreases v.len() - i,
    {
        r.push(v[i]);
        proof {
            assert(v@.subrange(0, i as int).push(v@[i as int]) =~= v@.subrange(0, i + 1));
        }
        i = i + 1;
    }
    proof {
        assert(v@.subrange(0, v@.len() as int) =~= v@);
    }
    r
}

/// True when the two character sequences are equal.
pub fn chars_eq(a: &Vec<char>, b: &Vec<char>) -> (r: bool)
    ensures
        r == (a@ == b@),
{
    if a.len() != b.len() {
        return false;
    }
    let mut i: usize = 0;
    while i < a.len()
        invariant
            i <= a.len(),
            a@.len() == b@.len(),
            forall|j: int| 0 <= j < i ==> a@[j] == b@[j],
        decreases a.len() - i,
    {
        if a[i] != b[i] {
            return false;
        }
        i = i + 1;
    }
    proof {
        assert(a@ =~= b@);
    }
    true
}

/// True when `p` is a prefix of `t`.
pub open spec fn is_prefix(p: Seq<char>, t: Seq<char>) -> bool {
    p.len() <= t.len() && t.subrange(0, p.len() as int) == p
}

/// True when the characters of `t` start with the characters of `p`.
pub fn chars_start_with(t: &Vec<char>, p: &Vec<char>) -> (r: bool)
    ensures
        r == is_prefix(p@, t@),
{
    if p.len() > t.len() {
        return false;
    }
    let mut i: usize = 0;
    while i < p.len()
        invariant
            i <= p.len(),
            p@.len() <= t@.len(),
            forall|j: int| 0 <= j < i ==> t@[j] == p@[j],
        decreases p.len() - i,
    {
        if t[i] != p[i] {
            proof {
                assert(t@.subrange(0, p@.len() as int)[i as int] == t@[i as int]);
            }
            return false;
        }
        i = i + 1;
    }
    proof {
        assert(t@.subrange(0, p@.len() as int) =~= p@);
    }
    true
}

/// `t` occurs in `s` starting at position `i`.
pub open spec fn occurs_at(s: Seq<char>, t: Seq<char>, i: int) -> bool {
    0 <= i && i + t.len() <= s.len() && s.subrange(i, i + t.len() as int) == t
}

/// `t` occurs somewhere in `s` as a contiguous run of characters.
pub open spec fn contains_seq(s: Seq<char>, t: Seq<char>) -> bool {
    exists|i: int| occurs_at(s, t, i)
}

/// Substring containment test: true when the characters of `t` appear
/// contiguously inside `s` (case-sensitive).
pub fn chars_contain(s: &Vec<char>, t: &Vec<char>) -> (r: bool)
    ensures
        r == contains_seq(s@, t@),
{
    if t.len() > s.len() {
        return false;
    }
    if t.len() == 0 {
        proof {
            assert(s@.subrange(0, 0) =~= t@);
            assert(occurs_at(s@, t@, 0));
        }
        return true;
    }
    let mut i: usize = 0;
    while i <= s.len() - t.len()
        invariant
            1 <= t@.len() <= s@.len(),
            i <= s@.len(),
            forall|k: int| 0 <= k < i ==> !occurs_at(s@, t@, k),
        decreases s.len() - i,
    {
        if occurs_here(s, t, i) {
            return true;
        }
        i = i + 1;
    }
    proof {
        assert forall|k: int| 0 <= k implies !occurs_at(s@, t@, k) by {
            if occurs_at(s@, t@, k) {
                assert(k + t@.len() <= s@.len());
            }
        }
    }
    false
}

/// Whether `t` matches the characters of `s` starting at index `i`.
fn occurs_here(s: &Vec<char>, t: &Vec<char>, i: usize) -> (r: bool)
    requires
        i + t@.len() <= s@.len(),
    ensures
        r == occurs_at(s@, t@, i as int),
{
    let slen = s.len();
    let mut j: usize = 0;
    while j < t.len()
        invariant
            slen == s@.len(),
            i + t@.len() <= s@.len(),
            j <= t@.len(),
            forall|k: int| 0 <= k < j ==> s@[i + k] == t@[k],
        decreases t.len() - j,
    {
        if s[i + j] != t[j] {
            proof {
                if occurs_at(s@, t@, i as int) {
                    assert(s@.subrange(i as int, i + t@.len() as int)[j as int] == s@[i + j]);
                }
            }
            return false;
        }
        j = j + 1;
    }
    proof {
        assert(s@.subrange(i as int, i + t@.len() as int) =~= t@);
    }
    true
}

/// Lexicographic order over character sequences by code point, the order in
/// which the store compares calendar-date strings.
pub open spec fn lex_le(a: Seq<char>, b: Seq<char>) -> bool
    decreases a.len(),
{
    if a.len() == 0 {
        true
    } else if b.len() == 0 {
        false
    } else if (a[0] as u32) < (b[0] as u32) {
        true
    } else if (a[0] as u32) > (b[0] as u32) {
        false
    } else {
        lex_le(a.drop_first(), b.drop_first())
    }
}

/// The lexicographic order is reflexive: every sequence is `<=` itself.
pub proof fn lemma_lex_le_refl(a: Seq<char>)
    ensures
        lex_le(a, a),
    decreases a.len(),
{
    if a.len() > 0 {
        lemma_lex_le_refl(a.drop_first());
    }
}

/// Lexicographic comparison of two character vectors.
pub fn chars_le(a: &Vec<char>, b: &Vec<char>) -> (r: bool)
    ensures
        r == lex_le(a@, b@),
{
    let mut i: usize = 0;
    proof {
        assert(a@.skip(0) =~= a@);
        assert(b@.skip(0) =~= b@);
    }
    while i < a.len() && i < b.len()
        invariant
            i <= a.len(),
            i <= b.len(),
            lex_le(a@, b@) == lex_le(a@.skip(i as int), b@.skip(i as int)),
        decreases a.len() - i,
    {
        let x = a[i];
        let y = b[i];
        let cx = x as u32;
        let cy = y as u32;
        proof {
            assert(a@.skip(i as int)[0] == a@[i as int]);
            assert(b@.skip(i as int)[0] == b@[i as int]);
            assert(a@.skip(i as int).drop_first() =~= a@.skip(i + 1));
            assert(b@.skip(i as int).drop_first() =~= b@.skip(i + 1));
        }
        if cx < cy {
            proof {
                assert(lex_le(a@.skip(i as int), b@.skip(i as int)));
            }
            return true;
        }
        if cx > cy {
            proof {
                assert(!lex_le(a@.skip(i as int), b@.skip(i as int)));
            }
            return false;
        }
        proof {
            vstd::utf8::char_u32_cast(x, cx);
            vstd::utf8::char_u32_cast(y, cy);
            assert(a@[i as int] == b@[i as int]);
        }
        i = i + 1;
    }
    proof {
        if i >= a.len() {
            assert(a@.skip(i as int).len() == 0);
        } else {
            assert(b@.skip(i as int).len() == 0);
            assert(a@.skip(i as int).len() > 0);
        }
    }
    i >= a.len()
}


/// Whitespace, as line trimming and token splitting understand it.
pub open spec fn is_ws_char(c: char) -> bool {
    c == ' ' || c == '\t' || c == '\n' || c == '\r' || c == '\u{0b}' || c == '\u{0c}'
}

/// Length of the whitespace run starting at `i`.
pub open spec fn ws_run_len(s: Seq<char>, i: int) -> int
    decreases s.len() - i,
{
    if 0 <= i < s.len() && is_ws_char(s[i]) {
        1 + ws_run_len(s, i + 1)
    } else {
        0
    }
}

/// Length of the run of non-whitespace characters starting at `i`.
pub open spec fn tok_run_len(s: Seq<char>, i: int) -> int
    decreases s.len() - i,
{
    if 0 <= i < s.len() && !is_ws_char(s[i]) {
        1 + tok_run_len(s, i + 1)
    } else {
        0
    }
}

/// The index of the newline that ends the line starting at `p`, or the end
/// of the text.
pub open spec fn line_break(s: Seq<char>, p: int) -> int
    decreases s.len() - p,
{
    if 0 <= p < s.len() && s[p] != '\n' {
        line_break(s, p + 1)
    } else {
        p
    }
}

/// The line starting at `p`: everything up to the newline, with one carriage
/// return stripped before it, exactly as line iteration does.
pub open spec fn line_content(s: Seq<char>, p: int) -> Seq<char> {
    let k = line_break(s, p);
    let raw = s.subrange(p, k);
    if k < s.len() && raw.len() > 0 && raw.last() == '\r' {
        raw.drop_last()
    } else {
        raw
    }
}

/// Runs stay inside the sequence, cover only their kind of character, and
/// stop at the first character of the other kind.
pub proof fn lemma_ws_run(s: Seq<char>, i: int)
    requires
        0 <= i <= s.len(),
    ensures
        ws_run_len(s, i) >= 0,
        i + ws_run_len(s, i) <= s.len(),
        forall|k: int| i <= k < i + ws_run_len(s, i) ==> is_ws_char(#[trigger] s[k]),
        i + ws_run_len(s, i) < s.len() ==> !is_ws_char(s[i + ws_run_len(s, i)]),
    decreases s.len() - i,
{
    if i < s.len() && is_ws_char(s[i]) {
        lemma_ws_run(s, i + 1);
    }
}

/// The line break index stays between `p` and the end.
pub proof fn lemma_line_break(s: Seq<char>, p: int)
    requires
        0 <= p <= s.len(),
    ensures
        p <= line_break(s, p) <= s.len(),
        forall|k: int| p <= k < line_break(s, p) ==> (#[trigger] s[k]) != '\n',
        line_break(s, p) < s.len() ==> s[line_break(s, p)] == '\n',
    decreases s.len() - p,
{
    if p < s.len() && s[p] != '\n' {
        lemma_line_break(s, p + 1);
    }
}

/// Whether the character at `i` is whitespace.
pub fn ws_at(chars: &Vec<char>, i: usize) -> (r: bool)
    requires
        i < chars@.len(),
    ensures
        r == is_ws_char(chars@[i as int]),
{
    let c = chars[i];
    c == ' ' || c == '\t' || c == '\n' || c == '\r' || c == '\u{0b}' || c == '\u{0c}'
}

/// Scan past the whitespace run starting at `from`.
#[verifier::loop_isolation(false)]
pub fn scan_ws(chars: &Vec<char>, from: usize) -> (r: usize)
    requires
        from <= chars@.len(),
    ensures
        from <= r <= chars@.len(),
        r - from == ws_run_len(chars@, from as int),
{
    let mut i = from;
    while i < chars.len() && ws_at(chars, i)
        invariant
            from <= i <= chars@.len(),
            ws_run_len(chars@, from as int) == (i - from) + ws_run_len(chars@, i as int),
        decreases chars@.len() - i,
    {
        i = i + 1;
    }
    i
}

/// Scan past the non-whitespace run starting at `from`.
#[verifier::loop_isolation(false)]
pub fn scan_tok(chars: &Vec<char>, from: usize) -> (r: usize)
    requires
        from <= chars@.len(),
    ensures
        from <= r <= chars@.len(),
        r - from == tok_run_len(chars@, from as int),
{
    let mut i = from;
    while i < chars.len() && !ws_at(chars, i)
        invariant
            from <= i <= chars@.len(),
            tok_run_len(chars@, from as int) == (i - from) + tok_run_len(chars@, i as int),
        decreases chars@.len() - i,
    {
        i = i + 1;
    }
    i
}

/// Whether the character at `i` is a newline.
fn nl_at(chars: &Vec<char>, i: usize) -> (r: bool)
    requires
        i < chars@.len(),
    ensures
        r == (chars@[i as int] == '\n'),
{
    chars[i] == '\n'
}

/// Scan to the end of the line starting at `from`.
#[verifier::loop_isolation(false)]
pub fn scan_line(chars: &Vec<char>, from: usize) -> (r: usize)
    requires
        from <= chars@.len(),
    ensures
        from <= r <= chars@.len(),
        r == line_break(chars@, from as int),
{
    let mut i = from;
    while i < chars.len() && !nl_at(chars, i)
        invariant
            from <= i <= chars@.len(),
            line_break(chars@, from as int) == line_break(chars@, i as int),
        decreases chars@.len() - i,
    {
        i = i + 1;
    }
    i
}

/// Copy the line starting at `p` out of the text; also gives the position
/// where the next line starts.
#[verifier::loop_isolation(false)]
pub fn take_line(chars: &Vec<char>, p: usize) -> (r: (Vec<char>, usize))
    requires
        p <= chars@.len(),
    ensures
        r.0@ == line_content(chars@, p as int),
        r.1 == (if line_break(chars@, p as int) < chars@.len() {
            line_break(chars@, p as int) + 1
        } else {
            chars@.len() as int
        }),
        p < chars@.len() ==> p < r.1,
        r.1 <= chars@.len(),
{
    let k = scan_line(chars, p);
    let mut line: Vec<char> = Vec::new();
    let mut i = p;
    while i < k
        invariant
            p <= i <= k,
            k <= chars@.len(),
            line@ == chars@.subrange(p as int, i as int),
        decreases k - i,
    {
        line.push(chars[i]);
        proof {
            assert(line@ =~= chars@.subrange(p as int, i + 1));
        }
        i = i + 1;
    }
    proof {
        lemma_line_break(chars@, p as int);
    }
    if k < chars.len() {
        if line.len() > 0 && line[line.len() - 1] == '\r' {
            let _ = line.pop();
            proof {
                assert(line@ =~= chars@.subrange(p as int, k as int).drop_last());
            }
        }
        proof {
            assert(line@ == line_content(chars@, p as int));
        }
        (line, k + 1)
    } else {
        proof {
            assert(line@ == line_content(chars@, p as int));
        }
        (line, k)
    }
}

} // verus!
