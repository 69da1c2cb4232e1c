//! The note-editing template: its data, the front-matter split, and the
//! error banner shown when an edit fails to parse.
//!
//! A template is front matter, a `+++` line, and free content. Splitting
//! is pinned to [`front_matter_split`]; the banner to [`error_header_text`].
//! What the front matter itself means is for the configuration-format layer
//! above to decide.

use vstd::prelude::*;

use crate::date::DateSource;
use crate::text::{
    is_ws_char, line_break, line_content, lemma_line_break, str_to_chars, take_line, ws_run_len,
};

verus! {

/// The parsed note template: tags, a date source, and the free content
/// below the front matter.
#[derive(Debug)]
pub struct EditorTemplate {
    pub tags: Vec<String>,
    pub date: DateSource,
    pub today: bool,
    pub content: String,
}

impl EditorTemplate {
    /// An empty template dated today.
    pub fn new() -> (r: EditorTemplate)
        ensures
            r.tags.deep_view() == Seq::<Seq<char>>::empty(),
            r.date == DateSource::Today,
            !r.today,
            r.content@ == Seq::<char>::empty(),
    {
        let r = EditorTemplate {
            tags: Vec::new(),
            date: DateSource::Today,
            today: false,
            content: String::new(),
        };
        proof {
            assert(r.tags.deep_view() =~= Seq::<Seq<char>>::empty());
        }
        r
    }
}

/// An editor session seeded with a template.
pub struct Editor {
    pub template: String,
}

impl Editor {
    /// Remember the template text to seed the editor with.
    pub fn new(template: &str) -> (r: Editor)
        ensures
            r.template@ == template@,
    {
        Editor { template: template.to_owned() }
    }

    /// Format an error banner as comment lines: every line of the message
    /// prefixed, the original text preserved below, so the next editing
    /// round can parse past it.
    pub fn format_error_header(error_text: &str, content: &str) -> (r: String)
        ensures
            r@ == error_header_text(error_text@, content@),
    {
        let mut m = "# ===== PARSING ERROR =====\n".to_owned();
        let chars = str_to_chars(error_text);
        let ghost full = "# ===== PARSING ERROR =====\n"@ + commented_from(chars@, 0);
        let mut p: usize = 0;
        while p < chars.len()
            invariant
                p <= chars@.len(),
                full == m@ + commented_from(chars@, p as int),
            decreases chars@.len() - p,
        {
            let (line, next) = take_line(&chars, p);
            m.append("# ");
            m.append(crate::text::chars_to_string(&line).as_str());
            if next < chars.len() {
                m.append("\n");
                proof {
                    assert(m@ + commented_from(chars@, next as int) =~= full);
                }
            } else {
                proof {
                    reveal_strlit("");
                    assert(commented_from(chars@, next as int) =~= Seq::<char>::empty());
                    assert(m@ + commented_from(chars@, next as int) =~= full);
                }
            }
            p = next;
        }
        proof {
            assert(commented_from(chars@, p as int) =~= Seq::<char>::empty());
            assert(m@ =~= full);
        }
        m.append("\n# ===== Fix the issue below and save again =====\n\n");
        m.append(content);
        proof {
            assert(m@ =~= error_header_text(error_text@, content@));
        }
        m
    }
}

/// Each line of the message as a comment, newline-joined.
pub open spec fn commented_from(s: Seq<char>, p: int) -> Seq<char>
    decreases s.len() - p,
    via commented_from_decreases
{
    if !(0 <= p < s.len()) {
        Seq::empty()
    } else {
        let next = if line_break(s, p) < s.len() {
            line_break(s, p) + 1
        } else {
            s.len() as int
        };
        "# "@ + line_content(s, p) + (if next < s.len() {
            "\n"@ + commented_from(s, next)
        } else {
            Seq::empty()
        })
    }
}

#[via_fn]
proof fn commented_from_decreases(s: Seq<char>, p: int) {
    if 0 <= p < s.len() {
        lemma_line_break(s, p);
    }
}

/// The whole error banner.
pub open spec fn error_header_text(err: Seq<char>, content: Seq<char>) -> Seq<char> {
    "# ===== PARSING ERROR =====\n"@ + commented_from(err, 0)
        + "\n# ===== Fix the issue below and save again =====\n\n"@ + content
}

/// Remove trailing whitespace.
pub open spec fn trim_end_spec(s: Seq<char>) -> Seq<char>
    decreases s.len(),
{
    if s.len() > 0 && is_ws_char(s.last()) {
        trim_end_spec(s.drop_last())
    } else {
        s
    }
}

/// Remove whitespace at both ends.
pub open spec fn trim_spec(s: Seq<char>) -> Seq<char> {
    let te = trim_end_spec(s);
    te.skip(ws_run_len(te, 0))
}

/// A line that is exactly the front-matter delimiter once trimmed.
pub open spec fn is_delim_line(line: Seq<char>) -> bool {
    trim_spec(line) == "+++"@
}

/// The lines of a text, in order, as line iteration yields them.
pub open spec fn lines_list(s: Seq<char>, p: int) -> Seq<Seq<char>>
    decreases s.len() - p,
    via lines_list_decreases
{
    if !(0 <= p < s.len()) {
        Seq::empty()
    } else {
        let next = if line_break(s, p) < s.len() {
            line_break(s, p) + 1
        } else {
            s.len() as int
        };
        seq![line_content(s, p)] + lines_list(s, next)
    }
}

#[via_fn]
proof fn lines_list_decreases(s: Seq<char>, p: int) {
    if 0 <= p < s.len() {
        lemma_line_break(s, p);
    }
}

/// Lines glued back together with newlines.
pub open spec fn join_nl(ls: Seq<Seq<char>>) -> Seq<char>
    decreases ls.len(),
{
    if ls.len() == 0 {
        Seq::empty()
    } else if ls.len() == 1 {
        ls[0]
    } else {
        join_nl(ls.drop_last()) + "\n"@ + ls.last()
    }
}

/// The index of the first delimiter line at or after `i`, or -1.
pub open spec fn delim_idx(ls: Seq<Seq<char>>, i: int) -> int
    decreases ls.len() - i,
{
    if !(0 <= i < ls.len()) {
        -1
    } else if is_delim_line(ls[i]) {
        i
    } else {
        delim_idx(ls, i + 1)
    }
}

/// The split of a template: the lines before the first delimiter line,
/// newline-joined, and the lines after it, newline-joined. A `+++` buried
/// inside the content does not split — only the first delimiter line
/// counts — and without any delimiter the whole text is front matter.
pub open spec fn front_matter_split(s: Seq<char>) -> (Seq<char>, Seq<char>) {
    let ls = lines_list(s, 0);
    let d = delim_idx(ls, 0);
    if d == -1 {
        (join_nl(ls), Seq::empty())
    } else {
        (join_nl(ls.take(d)), join_nl(ls.skip(d + 1)))
    }
}

/// Collect the lines of a text.
#[verifier::loop_isolation(false)]
fn collect_lines(chars: &Vec<char>) -> (r: Vec<Vec<char>>)
    ensures
        r.deep_view() == lines_list(chars@, 0),
{
    let mut out: Vec<Vec<char>> = Vec::new();
    let mut p: usize = 0;
    proof {
        assert(out.deep_view() =~~= Seq::<Seq<char>>::empty());
        assert(out.deep_view() + lines_list(chars@, 0) =~~= lines_list(chars@, 0));
    }
    while p < chars.len()
        invariant
            p <= chars@.len(),
            lines_list(chars@, 0) == out.deep_view() + lines_list(chars@, p as int),
        decreases chars@.len() - p,
    {
        let (line, next) = take_line(chars, p);
        let ghost prev = out.deep_view();
        let ghost lv = line@;
        out.push(line);
        proof {
            assert(out.deep_view() =~~= prev.push(lv));
            assert(prev.push(lv) + lines_list(chars@, next as int) =~~= prev + (seq![lv]
                + lines_list(chars@, next as int)));
        }
        p = next;
    }
    proof {
        assert(lines_list(chars@, p as int) =~~= Seq::<Seq<char>>::empty());
        assert(out.deep_view() + lines_list(chars@, p as int) =~~= out.deep_view());
    }
    out
}

/// Join a range of the collected lines with newlines.
#[verifier::loop_isolation(false)]
fn join_range(ls: &Vec<Vec<char>>, from: usize, to: usize) -> (r: String)
    requires
        from <= to <= ls.deep_view().len(),
    ensures
        r@ == join_nl(ls.deep_view().subrange(from as int, to as int)),
{
    let ghost range = ls.deep_view().subrange(from as int, to as int);
    let mut m = String::new();
    let mut j = from;
    proof {
        assert(range.take(0) =~= Seq::<Seq<char>>::empty());
    }
    while j < to
        invariant
            from <= j <= to,
            to <= ls.deep_view().len(),
            m@ == join_nl(range.take(j - from)),
        decreases to - j,
    {
        if j > from {
            m.append("\n");
        }
        m.append(crate::text::chars_to_string(&ls[j]).as_str());
        proof {
            assert(range.take(j + 1 - from).drop_last() =~= range.take(j - from));
            assert(range.take(j + 1 - from).last() == ls.deep_view()[j as int]);
            if j == from {
                assert(m@ =~= join_nl(range.take(1)));
            } else {
                assert(m@ =~= join_nl(range.take(j + 1 - from)));
            }
        }
        j = j + 1;
    }
    proof {
        assert(range.take(to - from) =~= range);
    }
    m
}


/// Trim a line's whitespace at both ends.
#[verifier::loop_isolation(false)]
fn trim_exec(line: &Vec<char>) -> (r: Vec<char>)
    ensures
        r@ == trim_spec(line@),
{
    let mut e = line.len();
    proof {
        assert(line@.take(line@.len() as int) =~= line@);
    }
    while e > 0 && crate::text::ws_at(line, e - 1)
        invariant
            e <= line@.len(),
            trim_end_spec(line@) == trim_end_spec(line@.take(e as int)),
        decreases e,
    {
        proof {
            assert(line@.take(e as int).drop_last() =~= line@.take(e - 1));
        }
        e = e - 1;
    }
    proof {
        assert(line@.take(e as int) =~= trim_end_spec(line@.take(e as int)));
        assert(trim_end_spec(line@) == line@.take(e as int));
    }
    let a = crate::text::scan_ws(line, 0);
    let start = if a < e {
        a
    } else {
        e
    };
    let mut out: Vec<char> = Vec::new();
    let mut i = start;
    while i < e
        invariant
            start <= i <= e,
            e <= line@.len(),
            out@ == line@.subrange(start as int, i as int),
        decreases e - i,
    {
        out.push(line[i]);
        proof {
            assert(out@ =~= line@.subrange(start as int, i + 1));
        }
        i = i + 1;
    }
    proof {
        let te = trim_end_spec(line@);
        lemma_ws_run_prefix(line@, e as int, 0);
        crate::text::lemma_ws_run(line@, 0);
        crate::text::lemma_ws_run(te, 0);
        assert(out@ =~= te.skip(ws_run_len(te, 0)));
    }
    out
}

/// Run lengths over a prefix, from any starting point.
proof fn lemma_ws_run_prefix(s: Seq<char>, e: int, i: int)
    requires
        0 <= i <= e <= s.len(),
    ensures
        ws_run_len(s.take(e), i) == (if ws_run_len(s, i) < e - i {
            ws_run_len(s, i)
        } else {
            e - i
        }),
    decreases e - i,
{
    crate::text::lemma_ws_run(s, i);
    crate::text::lemma_ws_run(s.take(e), i);
    if i < e {
        assert(s.take(e)[i] == s[i]);
        if is_ws_char(s[i]) {
            lemma_ws_run_prefix(s, e, i + 1);
        }
    }
}

/// The first delimiter line of the collected lines, if any.
#[verifier::loop_isolation(false)]
fn find_delim(lines: &Vec<Vec<char>>) -> (r: Option<usize>)
    ensures
        match r {
            Some(d) => d < lines.deep_view().len() && delim_idx(lines.deep_view(), 0) == d as int,
            None => delim_idx(lines.deep_view(), 0) == -1,
        },
{
    let ghost ls = lines.deep_view();
    let delim = str_to_chars("+++");
    let mut i: usize = 0;
    while i < lines.len()
        invariant
            i <= ls.len(),
            delim_idx(ls, 0) == delim_idx(ls, i as int),
        decreases ls.len() - i,
    {
        let trimmed = trim_exec(&lines[i]);
        proof {
            assert(ls[i as int] =~= lines@[i as int]@);
        }
        if crate::text::chars_eq(&trimmed, &delim) {
            proof {
                assert(is_delim_line(ls[i as int]));
            }
            return Some(i);
        }
        proof {
            assert(!is_delim_line(ls[i as int]));
        }
        i = i + 1;
    }
    None
}

/// Split a template into its front matter and its content, on the first
/// line that is `+++` once trimmed.
#[verifier::loop_isolation(false)]
pub fn split_front_matter(s: &str) -> (r: (String, String))
    ensures
        r.0@ == front_matter_split(s@).0,
        r.1@ == front_matter_split(s@).1,
{
    let chars = str_to_chars(s);
    let lines = collect_lines(&chars);
    let ghost ls = lines.deep_view();
    let found = find_delim(&lines);
    match found {
        Some(d) => {
            let front = join_range(&lines, 0, d);
            let content = join_range(&lines, d + 1, lines.len());
            proof {
                assert(ls.subrange(0, d as int) =~= ls.take(d as int));
                assert(ls.subrange(d + 1, ls.len() as int) =~= ls.skip(d + 1));
            }
            (front, content)
        }
        None => {
            proof {
                assert(delim_idx(ls, 0) == -1);
            }
            let front = join_range(&lines, 0, lines.len());
            proof {
                assert(ls.subrange(0, ls.len() as int) =~= ls);
            }
            (front, String::new())
        }
    }
}

} // verus!
