//! Interactive note cleanup: rendering the prune file and reading the
//! decisions back.
//!
//! The prune file lists one line per note, each starting with a command
//! word; comment lines and blank lines carry no meaning. Both directions
//! are pinned to spec-level notation: [`prune_file_text`] is exactly what
//! [`generate_prune_file`] renders, and [`parse_outcome`] is exactly what
//! [`parse_prune_file`] decides.

use vstd::prelude::*;

use crate::models::{Note, NoteV};
use crate::text::{
    chars_eq, chars_to_string, line_break, line_content, scan_tok, scan_ws, str_to_chars,
    take_line, tok_run_len, ws_run_len,
};

verus! {

/// What to do with one note.
#[derive(Debug, Clone, Copy, PartialEq, Eq, Structural)]
pub enum PruneAction {
    Keep,
    Delete,
}

/// Mathematical image of a [`PruneDecision`].
pub ghost struct PruneDecisionV {
    pub note_id: Seq<char>,
    pub action: PruneAction,
}

/// One decision read from the prune file.
#[derive(Debug, Clone)]
pub struct PruneDecision {
    pub note_id: String,
    pub action: PruneAction,
}

impl View for PruneDecision {
    type V = PruneDecisionV;

    open spec fn view(&self) -> PruneDecisionV {
        PruneDecisionV { note_id: self.note_id@, action: self.action }
    }
}

impl DeepView for PruneDecision {
    type V = PruneDecisionV;

    open spec fn deep_view(&self) -> PruneDecisionV {
        self.view()
    }
}

/// Why the prune file failed to parse, and on which one-based line.
#[derive(Debug, Clone)]
pub struct PruneParseError {
    pub line: usize,
    pub bad_action: Option<String>,
}

/// Mathematical image of a [`PruneParseError`].
pub ghost struct PruneParseErrorV {
    pub line: int,
    pub bad_action: Option<Seq<char>>,
}

impl View for PruneParseError {
    type V = PruneParseErrorV;

    open spec fn view(&self) -> PruneParseErrorV {
        PruneParseErrorV { line: self.line as int, bad_action: self.bad_action.deep_view() }
    }
}

impl PruneParseError {
    /// The failure in words, as the cleanup command reports it.
    pub fn message(&self) -> (r: String)
        ensures
            self.bad_action is None ==> r@ == "Invalid format at line "@ + crate::numtext::decimal_of(
                self.line as int,
            ) + ": expected '<action> <id> ...'"@,
            self.bad_action matches Some(a) ==> r@ == "Invalid action '"@ + a@ + "' at line "@
                + crate::numtext::decimal_of(self.line as int) + ". Expected 'keep' or 'delete'"@,
    {
        let line_text = crate::numtext::u64_to_string(self.line as u64);
        match &self.bad_action {
            None => {
                let mut m = "Invalid format at line ".to_owned();
                m.append(line_text.as_str());
                m.append(": expected '<action> <id> ...'");
                m
            }
            Some(a) => {
                let mut m = "Invalid action '".to_owned();
                m.append(a.as_str());
                m.append("' at line ");
                m.append(line_text.as_str());
                m.append(". Expected 'keep' or 'delete'");
                m
            }
        }
    }
}

/// How one line of the prune file reads.
pub ghost enum LineReading {
    Skip,
    Decision(PruneDecisionV),
    BadFormat,
    BadAction(Seq<char>),
}

/// Classify one line: blank lines and comments are skipped; otherwise the
/// first word must be a command and the second the note id.
pub open spec fn read_line(line: Seq<char>) -> LineReading {
    let a = ws_run_len(line, 0);
    if a == line.len() {
        LineReading::Skip
    } else if line[a] == '#' {
        LineReading::Skip
    } else {
        let t1 = tok_run_len(line, a);
        let b = a + t1 + ws_run_len(line, a + t1);
        if b >= line.len() {
            LineReading::BadFormat
        } else {
            let t2 = tok_run_len(line, b);
            let action = line.subrange(a, a + t1);
            let id = line.subrange(b, b + t2);
            if action == "keep"@ {
                LineReading::Decision(PruneDecisionV { note_id: id, action: PruneAction::Keep })
            } else if action == "delete"@ {
                LineReading::Decision(PruneDecisionV { note_id: id, action: PruneAction::Delete })
            } else {
                LineReading::BadAction(action)
            }
        }
    }
}

/// What parsing decides from position `p` on, with `ln` the one-based
/// number of the line starting there.
pub open spec fn parse_from(s: Seq<char>, p: int, ln: int) -> Result<
    Seq<PruneDecisionV>,
    PruneParseErrorV,
>
    decreases s.len() - p,
        via parse_from_decreases
{
    if !(0 <= p < s.len()) {
        Ok(Seq::empty())
    } else {
        let line = line_content(s, p);
        let next = if line_break(s, p) < s.len() {
            line_break(s, p) + 1
        } else {
            s.len() as int
        };
        match read_line(line) {
            LineReading::Skip => parse_from(s, next, ln + 1),
            LineReading::Decision(d) => match parse_from(s, next, ln + 1) {
                Ok(t) => Ok(seq![d] + t),
                Err(e) => Err(e),
            },
            LineReading::BadFormat => Err(PruneParseErrorV { line: ln, bad_action: None }),
            LineReading::BadAction(a) => Err(PruneParseErrorV { line: ln, bad_action: Some(a) }),
        }
    }
}

#[via_fn]
proof fn parse_from_decreases(s: Seq<char>, p: int, ln: int) {
    if 0 <= p < s.len() {
        crate::text::lemma_line_break(s, p);
    }
}

/// What parsing decides for a whole prune file.
pub open spec fn parse_outcome(s: Seq<char>) -> Result<Seq<PruneDecisionV>, PruneParseErrorV> {
    parse_from(s, 0, 1)
}

/// Classify one line, executably.
#[verifier::loop_isolation(false)]
fn read_line_exec(line: &Vec<char>) -> (r: (u32, Option<PruneDecision>))
    ensures
        r.0 == 0 ==> read_line(line@) is Skip,
        r.0 == 1 ==> (read_line(line@) matches LineReading::Decision(d) && r.1 matches Some(pd)
            && pd@ == d),
        r.0 == 2 ==> read_line(line@) is BadFormat,
        r.0 == 3 ==> (r.1 matches Some(pd) && read_line(line@) == LineReading::BadAction(
            pd@.note_id,
        )),
        r.0 <= 3,
{
    let a = scan_ws(line, 0);
    if a >= line.len() {
        return (0, None);
    }
    if line[a] == '#' {
        return (0, None);
    }
    let t1_end = scan_tok(line, a);
    let b = scan_ws(line, t1_end);
    if b >= line.len() {
        return (2, None);
    }
    let t2_end = scan_tok(line, b);
    let mut action_chars: Vec<char> = Vec::new();
    let mut i = a;
    while i < t1_end
        invariant
            a <= i <= t1_end,
            t1_end <= line@.len(),
            action_chars@ == line@.subrange(a as int, i as int),
        decreases t1_end - i,
    {
        action_chars.push(line[i]);
        proof {
            assert(action_chars@ =~= line@.subrange(a as int, i + 1));
        }
        i = i + 1;
    }
    let mut id_chars: Vec<char> = Vec::new();
    let mut j = b;
    while j < t2_end
        invariant
            b <= j <= t2_end,
            t2_end <= line@.len(),
            id_chars@ == line@.subrange(b as int, j as int),
        decreases t2_end - j,
    {
        id_chars.push(line[j]);
        proof {
            assert(id_chars@ =~= line@.subrange(b as int, j + 1));
        }
        j = j + 1;
    }
    let keep = str_to_chars("keep");
    let delete = str_to_chars("delete");
    let id = chars_to_string(&id_chars);
    if chars_eq(&action_chars, &keep) {
        (1, Some(PruneDecision { note_id: id, action: PruneAction::Keep }))
    } else if chars_eq(&action_chars, &delete) {
        (1, Some(PruneDecision { note_id: id, action: PruneAction::Delete }))
    } else {
        (3, Some(PruneDecision { note_id: chars_to_string(&action_chars), action: PruneAction::Keep }))
    }
}

/// Read the edited prune file back into decisions, in file order; the first
/// ill-formed line stops everything with an error naming it.
#[verifier::loop_isolation(false)]
pub fn parse_prune_file(content: &str) -> (r: Result<Vec<PruneDecision>, PruneParseError>)
    ensures
        match parse_outcome(content@) {
            Ok(t) => r matches Ok(ds) && ds.deep_view() == t,
            Err(e) => r matches Err(pe) && pe@ == e,
        },
{
    let chars = str_to_chars(content);
    let mut decisions: Vec<PruneDecision> = Vec::new();
    let mut p: usize = 0;
    let mut ln: u128 = 1;
    proof {
        assert(decisions.deep_view() =~= Seq::<PruneDecisionV>::empty());
    }
    while p < chars.len()
        invariant
            p <= chars@.len(),
            1 <= ln <= p + 1,
            match parse_from(chars@, p as int, ln as int) {
                Ok(t) => parse_outcome(chars@) == Ok::<Seq<PruneDecisionV>, PruneParseErrorV>(
                    decisions.deep_view() + t,
                ),
                Err(e) => parse_outcome(chars@) == Err::<Seq<PruneDecisionV>, PruneParseErrorV>(e),
            },
        decreases chars@.len() - p,
    {
        let (line, next) = take_line(&chars, p);
        let (code, payload) = read_line_exec(&line);
        if code == 2 {
            proof {
                assert(parse_from(chars@, p as int, ln as int) == Err::<
                    Seq<PruneDecisionV>,
                    PruneParseErrorV,
                >(PruneParseErrorV { line: ln as int, bad_action: None }));
            }
            proof {
                assert(ln <= p + 1);
            }
            return Err(PruneParseError { line: ln as usize, bad_action: None });
        }
        if code == 3 {
            match payload {
                Some(pd) => {
                    proof {
                        assert(parse_from(chars@, p as int, ln as int) == Err::<
                            Seq<PruneDecisionV>,
                            PruneParseErrorV,
                        >(PruneParseErrorV { line: ln as int, bad_action: Some(pd@.note_id) }));
                    }
                    proof {
                        assert(ln <= p + 1);
                    }
                    return Err(PruneParseError { line: ln as usize, bad_action: Some(pd.note_id) });
                }
                None => {
                    proof {
                        assert(false);
                    }
                }
            }
        }
        if code == 1 {
            match payload {
                Some(pd) => {
                    let ghost prev = decisions.deep_view();
                    let ghost dv = pd@;
                    decisions.push(pd);
                    proof {
                        assert(decisions.deep_view() =~= prev.push(dv));
                        match parse_from(chars@, next as int, ln + 1) {
                            Ok(t) => {
                                assert(prev.push(dv) + t =~= prev + (seq![dv] + t));
                            }
                            Err(_) => {}
                        }
                    }
                }
                None => {
                    proof {
                        assert(false);
                    }
                }
            }
        }
        p = next;
        ln = ln + 1;
    }
    proof {
        assert(decisions.deep_view() + Seq::<PruneDecisionV>::empty() =~= decisions.deep_view());
    }
    Ok(decisions)
}


/// The instruction header of the prune file.
pub open spec fn prune_header() -> Seq<char> {
    "# Interactive note cleanup\n"@ + "# \n"@ + "# Commands:\n"@
        + "#   keep   - keep this note (default)\n"@
        + "#   delete - permanently delete this note\n"@ + "#\n"@
        + "# Lines starting with '#' are ignored.\n"@
        + "# Edit the command word (keep/delete) on each line.\n"@ + "\n"@
}

/// The bracketed date of a note's line, or nothing.
pub open spec fn prune_date_part(n: NoteV) -> Seq<char> {
    match n.subject_date {
        Some(d) => "["@ + d + "]"@,
        None => ""@,
    }
}

/// The `#tag` list of a note's line; empty for an untagged note.
pub open spec fn prune_tags_part(tags: Seq<Seq<char>>) -> Seq<char>
    decreases tags.len(),
{
    if tags.len() == 0 {
        Seq::empty()
    } else {
        prune_tags_part(tags.drop_last()) + " #"@ + tags.last()
    }
}

/// The first line of the note's content, capped at eighty characters.
pub open spec fn prune_preview(n: NoteV) -> Seq<char> {
    let fl = line_content(n.content, 0);
    if fl.len() > 80 {
        fl.take(80)
    } else {
        fl
    }
}

/// Whether the preview line ends in an ellipsis: the content went on past
/// the first line, or the first line reached the cap.
pub open spec fn prune_ellipsis(n: NoteV) -> bool {
    line_break(n.content, 0) + 1 < n.content.len() || line_content(n.content, 0).len() >= 80
}

/// The ellipsis of a preview, or nothing.
pub open spec fn prune_suffix(n: NoteV) -> Seq<char> {
    if prune_ellipsis(n) {
        "..."@
    } else {
        ""@
    }
}

/// One note's line in the prune file.
pub open spec fn prune_line_text(n: NoteV) -> Seq<char> {
    "keep "@ + n.id + " "@ + prune_date_part(n) + prune_tags_part(n.tags) + " "@
        + prune_preview(n) + prune_suffix(n) + "\n"@
}

/// All note lines, in listing order.
pub open spec fn prune_lines_text(ns: Seq<NoteV>) -> Seq<char>
    decreases ns.len(),
{
    if ns.len() == 0 {
        Seq::empty()
    } else {
        prune_lines_text(ns.drop_last()) + prune_line_text(ns.last())
    }
}

/// The whole prune file for a note listing.
pub open spec fn prune_file_text(ns: Seq<NoteV>) -> Seq<char> {
    prune_header() + prune_lines_text(ns)
}


/// Append one note's line to the prune file being built.
#[verifier::loop_isolation(false)]
#[verifier::rlimit(100)]
fn append_note_line(m: &mut String, note: &Note)
    ensures
        final(m)@ == old(m)@ + prune_line_text(note@),
{
    let ghost line_start = m@;
    m.append("keep ");
    m.append(note.id.as_str());
    m.append(" ");
    match &note.subject_date {
        Some(d) => {
            m.append("[");
            m.append(d.as_str());
            m.append("]");
            proof {
                assert("["@ + d@ + "]"@ =~= prune_date_part(note@));
            }
        }
        None => {
            proof {
                reveal_strlit("");
                assert(prune_date_part(note@) =~= Seq::<char>::empty());
            }
        }
    }
    proof {
        assert(m@ =~= line_start + ("keep "@ + note@.id + " "@ + prune_date_part(note@)));
    }
    let ghost tags_dv = note@.tags;
    let ghost base = m@;
    let mut j: usize = 0;
    proof {
        assert(tags_dv.take(0) =~= Seq::<Seq<char>>::empty());
        assert(m@ =~= base + prune_tags_part(tags_dv.take(0)));
    }
    while j < note.tags.len()
        invariant
            j <= tags_dv.len(),
            m@ == base + prune_tags_part(tags_dv.take(j as int)),
        decreases note.tags.len() - j,
    {
        m.append(" #");
        m.append(note.tags[j].as_str());
        proof {
            assert(tags_dv.take(j + 1).drop_last() =~= tags_dv.take(j as int));
            assert(tags_dv.take(j + 1).last() == tags_dv[j as int]);
            assert(m@ =~= base + prune_tags_part(tags_dv.take(j + 1)));
        }
        j = j + 1;
    }
    proof {
        assert(tags_dv.take(tags_dv.len() as int) =~= tags_dv);
        assert(m@ =~= line_start + ("keep "@ + note@.id + " "@ + prune_date_part(note@)
            + prune_tags_part(note@.tags)));
    }
    m.append(" ");
    let content_chars = str_to_chars(note.content.as_str());
    let (first_line, _next) = take_line(&content_chars, 0);
    let line_len = first_line.len();
    let mut preview_chars: Vec<char> = Vec::new();
    let mut k: usize = 0;
    let cap = if line_len > 80 {
        80
    } else {
        line_len
    };
    while k < cap
        invariant
            k <= cap,
            cap <= first_line@.len(),
            preview_chars@ == first_line@.take(k as int),
        decreases cap - k,
    {
        preview_chars.push(first_line[k]);
        proof {
            assert(preview_chars@ =~= first_line@.take(k + 1));
        }
        k = k + 1;
    }
    proof {
        assert(preview_chars@ =~= prune_preview(note@));
    }
    let preview = chars_to_string(&preview_chars);
    m.append(preview.as_str());
    let ghost pre_suffix = line_start + ("keep "@ + note@.id + " "@ + prune_date_part(note@)
        + prune_tags_part(note@.tags) + " "@ + prune_preview(note@));
    proof {
        assert(m@ =~= pre_suffix);
    }
    let nl = crate::text::scan_line(&content_chars, 0);
    let more_lines = nl < content_chars.len() && nl + 1 < content_chars.len();
    if more_lines || line_len >= 80 {
        m.append("...");
        proof {
            assert(prune_ellipsis(note@));
            assert(m@ =~= pre_suffix + prune_suffix(note@));
        }
    } else {
        proof {
            reveal_strlit("");
            assert(!prune_ellipsis(note@));
            assert(prune_suffix(note@) =~= Seq::<char>::empty());
            assert(m@ =~= pre_suffix + prune_suffix(note@));
        }
    }
    m.append("\n");
    proof {
        assert(m@ =~= line_start + prune_line_text(note@));
    }
}

/// Render the prune file: the instruction header, then one `keep` line per
/// note with its id, date, tags and a one-line preview. The preview counts
/// characters, with an ellipsis when the content has more lines or the
/// first line reaches the cap.
#[verifier::loop_isolation(false)]
#[verifier::rlimit(80)]
pub fn generate_prune_file(notes: &Vec<Note>) -> (r: String)
    ensures
        r@ == prune_file_text(notes.deep_view()),
{
    let ghost dv = notes.deep_view();
    let mut m = "# Interactive note cleanup\n".to_owned();
    m.append("# \n");
    m.append("# Commands:\n");
    m.append("#   keep   - keep this note (default)\n");
    m.append("#   delete - permanently delete this note\n");
    m.append("#\n");
    m.append("# Lines starting with '#' are ignored.\n");
    m.append("# Edit the command word (keep/delete) on each line.\n");
    m.append("\n");
    let mut i: usize = 0;
    proof {
        assert(dv.take(0) =~= Seq::<NoteV>::empty());
        assert(m@ =~= prune_header() + prune_lines_text(dv.take(0)));
    }
    while i < notes.len()
        invariant
            i <= dv.len(),
            m@ == prune_header() + prune_lines_text(dv.take(i as int)),
        decreases notes.len() - i,
    {
        let note = &notes[i];
        proof {
            assert(note@ == dv[i as int]);
        }
        append_note_line(&mut m, note);
        proof {
            assert(dv.take(i + 1).drop_last() =~= dv.take(i as int));
            assert(dv.take(i + 1).last() == dv[i as int]);
            assert(prune_lines_text(dv.take(i + 1)) == prune_lines_text(dv.take(i as int))
                + prune_line_text(note@));
            assert(m@ =~= prune_header() + prune_lines_text(dv.take(i + 1)));
        }
        i = i + 1;
    }
    proof {
        assert(dv.take(dv.len() as int) =~= dv);
    }
    m
}

} // verus!
