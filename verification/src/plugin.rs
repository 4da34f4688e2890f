//! One run of the plugin, from the request's parameter to the response.

use vstd::prelude::*;
use vstd::string::StringExecFns;
use crate::generator::{generator_of, leftovers_of, FileOut, GeneratedFile, Generator};
use crate::text::{join, join_strings};
use crate::utils::{split_escaped, split_fields};

verus! {

/// The separator of the options in the request's parameter.
pub const OPTION_SEPARATOR: char = ',';

/// The message that reports the options `opts` as unknown, one on each
/// line.
pub open spec fn unknown_opts_text(opts: Seq<Seq<char>>) -> Seq<char> {
    "Unknown opts:\n - "@ + join(opts, "\n - "@)
}

/// Writes the message that reports `opts` as unknown.
pub fn unknown_opts_message(opts: &Vec<String>) -> (out: String)
    ensures
        out@ == unknown_opts_text(opts.deep_view()),
{
    let mut out = String::from_str("Unknown opts:\n - ");
    let list = join_strings(opts, "\n - ");
    out.append(list.as_str());
    out
}

/// Reads the request's parameter: a list of options divided by commas, in
/// which `\,` stands for a comma in an option's text.
///
/// Gives the generator that the options describe where every option is
/// recognised, and otherwise the message that lists those that are not.
pub fn generator_from_parameter(parameter: &str) -> (ret: Result<Generator, String>)
    ensures
        match ret {
            Ok(generator) => {
                &&& leftovers_of(split_fields(parameter@, OPTION_SEPARATOR)).len() == 0
                &&& generator@ == generator_of(split_fields(parameter@, OPTION_SEPARATOR))
            },
            Err(message) => {
                &&& leftovers_of(split_fields(parameter@, OPTION_SEPARATOR)).len() > 0
                &&& message@ == unknown_opts_text(
                    leftovers_of(split_fields(parameter@, OPTION_SEPARATOR)),
                )
            },
        },
{
    let opts = split_escaped(parameter, OPTION_SEPARATOR);
    let (generator, leftovers) = Generator::new_from_opts(opts);
    assert(leftovers.deep_view().len() == leftovers.len());
    if leftovers.len() > 0 {
        Err(unknown_opts_message(&leftovers))
    } else {
        Ok(generator)
    }
}

/// What the plugin answers: the generated files, or the reason why there
/// are none.
pub struct Response {
    /// The generated files; none where the run failed.
    pub file: Vec<GeneratedFile>,
    /// What went wrong, where the run failed.
    pub error: Option<String>,
}

/// What a [`Response`] holds, as plain sequences.
pub ghost struct ResponseView {
    pub file: Seq<FileOut>,
    pub error: Option<Seq<char>>,
}

impl View for Response {
    type V = ResponseView;

    open spec fn view(&self) -> ResponseView {
        ResponseView { file: self.file.deep_view(), error: self.error.deep_view() }
    }
}

/// The answer for the outcome of a run: its files where it went through,
/// its message and no file where it failed.
pub fn respond(outcome: Result<Vec<GeneratedFile>, String>) -> (response: Response)
    ensures
        match outcome {
            Ok(files) => response@ == (ResponseView { file: files.deep_view(), error: None }),
            Err(message) => response@ == (ResponseView { file: Seq::empty(), error: Some(message@) }),
        },
{
    match outcome {
        Ok(file) => Response { file, error: None },
        Err(message) => {
            let response = Response { file: Vec::new(), error: Some(message) };
            assert(response.file.deep_view() == Seq::<FileOut>::empty());
            response
        },
    }
}

} // verus!
