//! What a run is asked to do, decided from its arguments.

use vstd::prelude::*;

verus! {

/// The similarity floor that is used where none is given: 0.2, as the bits
/// of an IEEE 754 single-precision number.
pub const DEFAULT_FLOOR: u32 = 0x3e4c_cccd;

/// The options of the cache subcommand.
#[derive(Clone, Copy, Debug, PartialEq, Eq, Structural)]
pub struct CacheSubcommand {
    /// Clear the cache.
    pub clear: bool,
    /// Build the cache for the current directory. This is also what is done
    /// where no option is given.
    pub build: bool,
}

/// The subcommands.
#[derive(Clone, Copy, Debug, PartialEq, Eq, Structural)]
pub enum SubCommands {
    /// Manage the embeddings cache.
    Cache(CacheSubcommand),
}

/// What a run does.
pub enum Mode {
    /// List the models on offer.
    ListModels,
    /// Remove the cache.
    ClearCache,
    /// Fill the cache for the current directory, and print nothing.
    BuildCache,
    /// Print the similarity of two phrases.
    Compare { first: String, second: String },
    /// Search the current directory for a phrase.
    Search { phrase: String },
}

/// What a [`Mode`] holds, as mathematical values.
pub enum ModeView {
    ListModels,
    ClearCache,
    BuildCache,
    Compare { first: Seq<char>, second: Seq<char> },
    Search { phrase: Seq<char> },
}

impl View for Mode {
    type V = ModeView;

    open spec fn view(&self) -> ModeView {
        match *self {
            Mode::ListModels => ModeView::ListModels,
            Mode::ClearCache => ModeView::ClearCache,
            Mode::BuildCache => ModeView::BuildCache,
            Mode::Compare { first, second } => ModeView::Compare { first: first@, second: second@ },
            Mode::Search { phrase } => ModeView::Search { phrase: phrase@ },
        }
    }
}

/// The phrase of a run: what was piped in where that is not empty, else the
/// query argument, else the empty phrase.
pub open spec fn phrase_of(query: Option<Seq<char>>, piped: Seq<char>) -> Seq<char> {
    if piped.len() > 0 {
        piped
    } else {
        match query {
            Some(q) => q,
            None => Seq::empty(),
        }
    }
}

/// The mode of a run. Listing the models comes before everything else, then
/// the cache subcommand, of which clearing comes first; a second phrase asks
/// for a comparison, and all else is a search.
pub open spec fn mode_of(
    list_models: bool,
    subcmd: Option<SubCommands>,
    query: Option<Seq<char>>,
    piped: Seq<char>,
    comparison: Option<Seq<char>>,
) -> ModeView {
    if list_models {
        ModeView::ListModels
    } else {
        match subcmd {
            Some(SubCommands::Cache(options)) => if options.clear {
                ModeView::ClearCache
            } else {
                ModeView::BuildCache
            },
            None => match comparison {
                Some(second) => ModeView::Compare { first: phrase_of(query, piped), second },
                None => ModeView::Search { phrase: phrase_of(query, piped) },
            },
        }
    }
}

/// Decides what a run does, from its arguments and from what was piped in.
pub fn select_mode(
    list_models: bool,
    subcmd: Option<SubCommands>,
    query: Option<String>,
    piped: String,
    comparison: Option<String>,
) -> (out: Mode)
    ensures
        out@ == mode_of(
            list_models,
            subcmd,
            match query {
                Some(q) => Some(q@),
                None => None,
            },
            piped@,
            match comparison {
                Some(c) => Some(c@),
                None => None,
            },
        ),
{
    if list_models {
        return Mode::ListModels;
    }
    match subcmd {
        Some(SubCommands::Cache(options)) => {
            if options.clear {
                Mode::ClearCache
            } else {
                Mode::BuildCache
            }
        },
        None => {
            let phrase = if !piped.as_str().is_empty() {
                piped
            } else {
                match query {
                    Some(q) => q,
                    None => String::new(),
                }
            };
            match comparison {
                Some(second) => Mode::Compare { first: phrase, second },
                None => Mode::Search { phrase },
            }
        },
    }
}

/// The similarity floor of a run: the one given, or the default.
pub fn floor_or_default(floor: Option<u32>) -> (out: u32)
    ensures
        out == match floor {
            Some(given) => given,
            None => DEFAULT_FLOOR,
        },
{
    match floor {
        Some(given) => given,
        None => DEFAULT_FLOOR,
    }
}

} // verus!
