//! A small client library for a command-line chat tool: a config store of
//! named model entries, a transcript codec for persisted conversations, a
//! streaming response decoder, and the query parsing that drives them.
use vstd::prelude::*;

pub mod convo;
pub mod store;
pub mod stream;
pub mod transcript;
pub mod text;

use crate::store::{entries_data, Entry};
use crate::text::{clone_strings_from, join_spaces, join_with_spaces, str_eq, strs};

verus! {

/// What str::to_lowercase returns for a text: the Unicode lowercase
/// mapping, a function of the characters alone.
pub uninterp spec fn lower_of(s: Seq<char>) -> Seq<char>;

/// Relies on str::to_lowercase: the result depends only on the characters
/// of the input, realizing `lower_of`.
#[verifier::external_body]
fn lowercase(s: &str) -> (r: String)
    ensures
        r@ == lower_of(s@),
{
    s.to_lowercase()
}

/// A parsed invocation: the command — a keyword or an entry name — and the
/// arguments that follow it.
pub struct Query {
    pub command: String,
    pub args: Vec<String>,
}

impl Query {
    /// Builds a query from the process arguments. The leading program name
    /// is dropped; the next argument, lowercased, is the command, defaulting
    /// to `help` when absent; the rest are the arguments.
    pub fn build(args: Vec<String>) -> (q: Query)
        ensures
            args@.len() <= 1 ==> q.command@ == "help"@ && q.args@.len() == 0,
            args@.len() >= 2 ==> q.command@ == lower_of(args@[1]@) && strs(q.args@) == strs(
                args@,
            ).skip(2),
    {
        if args.len() <= 1 {
            Query { command: String::from_str("help"), args: Vec::new() }
        } else {
            let command = lowercase(args[1].as_str());
            let rest = clone_strings_from(&args, 2);
            Query { command, args: rest }
        }
    }
}

/// How one chat invocation starts: whether the persisted history is reset
/// first, and the prompt sent.
pub struct ChatPlan {
    pub reset: bool,
    pub prompt: String,
}

/// Plans a chat from the query arguments: a leading `-n` flag asks for the
/// history to be truncated and is dropped; the remaining arguments, joined
/// by single spaces, form the user prompt.
pub fn plan_chat(args: &Vec<String>) -> (p: ChatPlan)
    ensures
        p.reset == (args@.len() > 0 && args@[0]@ == "-n"@),
        p.prompt@ == join_spaces(
            strs(args@).skip(
                if args@.len() > 0 && args@[0]@ == "-n"@ {
                    1int
                } else {
                    0int
                },
            ),
        ),
{
    let mut reset = false;
    if args.len() > 0 {
        if str_eq(args[0].as_str(), "-n") {
            reset = true;
        }
    }
    let start: usize = if reset {
        1
    } else {
        0
    };
    let prompt = join_with_spaces(args, start);
    ChatPlan { reset, prompt }
}

/// Finds the first entry carrying the name, as chat dispatch does.
pub fn find_entry(config: &Vec<Entry>, name: &str) -> (r: Option<usize>)
    ensures
        match r {
            Some(i) => {
                &&& i < config@.len()
                &&& entries_data(config@)[i as int].0 == name@
                &&& forall|j: int|
                    0 <= j < i ==> (#[trigger] entries_data(config@)[j]).0 != name@
            },
            None => forall|j: int|
                0 <= j < config@.len() ==> (#[trigger] entries_data(config@)[j]).0 != name@,
        },
{
    let mut i: usize = 0;
    while i < config.len()
        invariant
            i <= config@.len(),
            forall|j: int| 0 <= j < i ==> (#[trigger] entries_data(config@)[j]).0 != name@,
        decreases config@.len() - i,
    {
        if str_eq(config[i].name.as_str(), name) {
            proof {
                assert(entries_data(config@)[i as int].0 == name@);
            }
            return Some(i);
        }
        proof {
            assert(entries_data(config@)[i as int].0 != name@);
        }
        i += 1;
    }
    None
}

} // verus!
