//! The command vocabulary of the note CLI, as plain data, and the step
//! that turns search arguments into a store query.
//!
//! The argument parser itself lives outside; it hands these values in.

use vstd::prelude::*;

use crate::date::{DateSource, DateTarget};
use crate::models::SearchQuery;

verus! {

/// Options every invocation carries.
#[derive(Debug, Clone)]
pub struct ConfigArgs {
    /// Profile name to use.
    pub profile: Option<String>,
}

/// Profile management commands.
#[derive(Debug, Clone)]
pub enum ProfileCommand {
    /// Switch to a profile, creating it if need be.
    Use { name: String },
    /// List all available profiles.
    List,
    /// Show the current active profile.
    Current,
}

/// How search results are printed.
#[derive(Debug, Clone, Copy, PartialEq, Eq, Structural)]
pub enum OutputFormat {
    Pretty,
    Plain,
    Json,
    /// Only note ids, one per line.
    Id,
}

impl Default for OutputFormat {
    /// Pretty printing.
    fn default() -> (r: OutputFormat)
        ensures
            r == OutputFormat::Pretty,
    {
        OutputFormat::Pretty
    }
}

/// Arguments of note creation.
#[derive(Debug, Clone)]
pub struct NoteAddArgs {
    /// Which day the note is about.
    pub date: DateSource,
    /// The words of the note's content.
    pub content: Vec<String>,
    /// Open an external editor instead.
    pub editor: bool,
    /// Tags to attach.
    pub tag: Vec<String>,
    /// Only print the new note's id.
    pub quiet: bool,
}

/// Arguments of note search.
#[derive(Debug, Clone)]
pub struct NoteSearchArgs {
    /// Term to look for in the content.
    pub term: Option<String>,
    /// Tags the notes must all carry.
    pub tag: Vec<String>,
    /// Day or span to search within.
    pub date: Option<DateTarget>,
    /// How many lines of each note to show.
    pub lines: Option<usize>,
    /// Cap on the number of results.
    pub limit: Option<i64>,
    /// Output format.
    pub output: OutputFormat,
}

impl Default for NoteSearchArgs {
    /// Everything, pretty-printed.
    fn default() -> (r: NoteSearchArgs)
        ensures
            r.term is None,
            r.tag.deep_view() == Seq::<Seq<char>>::empty(),
            r.date is None,
            r.lines is None,
            r.limit is None,
            r.output == OutputFormat::Pretty,
    {
        let r = NoteSearchArgs {
            term: None,
            tag: Vec::new(),
            date: None,
            lines: None,
            limit: None,
            output: OutputFormat::Pretty,
        };
        proof {
            assert(r.tag.deep_view() =~= Seq::<Seq<char>>::empty());
        }
        r
    }
}

/// Arguments of the latest-note lookup.
#[derive(Debug, Clone)]
pub struct NoteLatestArgs {
    /// Term to look for in the content.
    pub term: Option<String>,
    /// Tags the note must carry.
    pub tag: Vec<String>,
    /// Output format.
    pub output: OutputFormat,
}

/// Arguments of note editing.
#[derive(Debug, Clone)]
pub struct NoteEditArgs {
    /// Id of the note to edit; the most recent note when absent.
    pub id: Option<String>,
}

/// Arguments of note deletion.
#[derive(Debug, Clone)]
pub struct NoteDeleteArgs {
    /// Ids to delete; the most recent note when empty.
    pub ids: Vec<String>,
    /// Skip the confirmation prompt.
    pub yes: bool,
}

/// Turn search arguments into a store query: the term becomes the text
/// filter, the tags carry over, tombstones stay hidden, and the cap carries
/// over where it is a nonnegative count.
pub fn build_search_query(args: &NoteSearchArgs) -> (r: SearchQuery)
    ensures
        r@.text == args.term.deep_view(),
        r@.tags == args.tag.deep_view(),
        r@.date_from is None,
        r@.date_to is None,
        !r@.include_deleted,
        r@.limit is Some <==> args.limit is Some,
        args.limit matches Some(l) ==> (l >= 0 ==> r@.limit == Some(l as usize)),
{
    let text = match &args.term {
        Some(t) => Some(t.clone()),
        None => None,
    };
    #[verifier::truncate]
    let limit = match args.limit {
        Some(l) => Some(l as usize),
        None => None,
    };
    SearchQuery {
        text,
        tags: crate::models::clone_tags(&args.tag),
        date_from: None,
        date_to: None,
        include_deleted: false,
        limit,
    }
}

} // verus!
