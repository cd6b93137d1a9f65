//! The options of a command line, as the `getopts` crate parses them.
//!
//! What stands here is believed of `getopts`, not proved: the types are
//! carried as they are, what the parser finds and the help text have a name
//! each, and each function says of its call what the source of `getopts`
//! shows of it.

use vstd::prelude::*;

verus! {

/// Declares `getopts::Options`, the description of the options that a
/// program takes.
#[verifier::external_type_specification]
#[verifier::external_body]
pub struct ExOptions(getopts::Options);

/// Declares `getopts::Matches`, what a command line held.
#[verifier::external_type_specification]
#[verifier::external_body]
pub struct ExMatches(getopts::Matches);

/// Declares `getopts::Fail`, why a command line does not parse.
#[verifier::external_type_specification]
#[verifier::external_body]
pub struct ExFail(getopts::Fail);

/// What `options` describes: of each option, in the order in which they were
/// added, the short name, the long name, whether it takes a value, and
/// whether it may be given many times.
pub uninterp spec fn described(options: getopts::Options) -> Seq<
    (Seq<char>, Seq<char>, bool, bool),
>;

/// What `matches` holds: under each name by which it can be asked, short or
/// long, the times that the option was given, in their order, each with the
/// value that it was given with, if any.
pub uninterp spec fn given(matches: getopts::Matches) -> Map<Seq<char>, Seq<Option<Seq<char>>>>;

/// The sentence that the `Display` of `getopts::Fail` writes of `fail`.
pub uninterp spec fn sentence(fail: getopts::Fail) -> Seq<char>;

/// What `getopts::Options::parse` finds in `args` by `options`: what the
/// matches hold, or, where the arguments do not parse, the sentence of the
/// failure.
pub uninterp spec fn parsed(options: getopts::Options, args: Seq<Seq<char>>) -> Result<
    Map<Seq<char>, Seq<Option<Seq<char>>>>,
    Seq<char>,
>;

/// The text that `getopts::Options::usage` makes of `options` under the line
/// `brief`.
pub uninterp spec fn usage_text(options: getopts::Options, brief: Seq<char>) -> Seq<char>;

/// The views of the strings `args`.
pub open spec fn words_of(args: Seq<String>) -> Seq<Seq<char>> {
    Seq::new(args.len(), |i: int| args[i]@)
}

/// The value that an option was first given with, if it was given with one.
pub open spec fn first_value(times: Seq<Option<Seq<char>>>) -> Option<Seq<char>> {
    if times.len() > 0 {
        times[0]
    } else {
        None
    }
}

/// A short name is empty or one ASCII character, a long name is empty or
/// longer than one character, and one of the two is given.
pub open spec fn names_fit(short_name: Seq<char>, long_name: Seq<char>) -> bool {
    &&& short_name.len() == 0 || (short_name.len() == 1 && (short_name[0] as u32) < 128)
    &&& long_name.len() == 0 || long_name.len() >= 2
    &&& short_name.len() > 0 || long_name.len() > 0
}

/// All the names of `described` fit.
pub open spec fn all_fit(described: Seq<(Seq<char>, Seq<char>, bool, bool)>) -> bool {
    forall|i: int| 0 <= i < described.len() ==> names_fit((#[trigger] described[i]).0, described[i].1)
}

/// The names of `described`, short and long.
pub open spec fn names_described(described: Seq<(Seq<char>, Seq<char>, bool, bool)>) -> Set<
    Seq<char>,
> {
    Set::new(
        |name: Seq<char>|
            name.len() > 0 && exists|i: int|
                0 <= i < described.len() && ((#[trigger] described[i]).0 == name || described[i].1
                    == name),
    )
}

/// `getopts::Options::new`: a description of no options.
#[verifier::external_body]
pub(crate) fn options_new() -> (options: getopts::Options)
    ensures
        described(options) == Seq::<(Seq<char>, Seq<char>, bool, bool)>::empty(),
{
    getopts::Options::new()
}

/// `getopts::Options::optopt`: adds an option that takes a value and may be
/// given once. The call panics on names that do not fit; an option of names
/// that fit is added to the description.
#[verifier::external_body]
pub(crate) fn optopt(
    options: &mut getopts::Options,
    short_name: &str,
    long_name: &str,
    desc: &str,
    hint: &str,
)
    requires
        names_fit(short_name@, long_name@),
    ensures
        described(*final(options)) == described(*old(options)).push(
            (short_name@, long_name@, true, false),
        ),
{
    options.optopt(short_name, long_name, desc, hint);
}

/// `getopts::Options::optflag`: adds an option that takes no value and may
/// be given once. The call panics on names that do not fit; an option of
/// names that fit is added to the description.
#[verifier::external_body]
pub(crate) fn optflag(options: &mut getopts::Options, short_name: &str, long_name: &str, desc: &str)
    requires
        names_fit(short_name@, long_name@),
    ensures
        described(*final(options)) == described(*old(options)).push(
            (short_name@, long_name@, false, false),
        ),
{
    options.optflag(short_name, long_name, desc);
}

/// `getopts::Options::optflagmulti`: adds an option that takes no value and
/// may be given many times. The call panics on names that do not fit; an
/// option of names that fit is added to the description.
#[verifier::external_body]
pub(crate) fn optflagmulti(
    options: &mut getopts::Options,
    short_name: &str,
    long_name: &str,
    desc: &str,
)
    requires
        names_fit(short_name@, long_name@),
    ensures
        described(*final(options)) == described(*old(options)).push(
            (short_name@, long_name@, false, true),
        ),
{
    options.optflagmulti(short_name, long_name, desc);
}

/// `getopts::Options::parse`: reads `args` by the description. The call
/// panics on an option without a name. What it finds is a function of the
/// options and the arguments, which `parsed` names; where it succeeds, the
/// matches can be asked by the names of the description, short and long.
#[verifier::external_body]
pub(crate) fn parse(options: &getopts::Options, args: &Vec<String>) -> (r: Result<
    getopts::Matches,
    getopts::Fail,
>)
    requires
        all_fit(described(*options)),
    ensures
        match r {
            Ok(matches) => parsed(*options, words_of(args@)) == Ok::<
                Map<Seq<char>, Seq<Option<Seq<char>>>>,
                Seq<char>,
            >(given(matches)) && given(matches).dom() == names_described(described(*options)),
            Err(fail) => parsed(*options, words_of(args@)) == Err::<
                Map<Seq<char>, Seq<Option<Seq<char>>>>,
                Seq<char>,
            >(sentence(fail)),
        },
{
    options.parse(args)
}

/// `getopts::Matches::opt_present`: whether the option was given. The call
/// panics on a name that was not described.
#[verifier::external_body]
pub(crate) fn opt_present(matches: &getopts::Matches, name: &str) -> (present: bool)
    requires
        given(*matches).dom().contains(name@),
    ensures
        present == (given(*matches)[name@].len() > 0),
{
    matches.opt_present(name)
}

/// `getopts::Matches::opt_count`: how many times the option was given. The
/// call panics on a name that was not described.
#[verifier::external_body]
pub(crate) fn opt_count(matches: &getopts::Matches, name: &str) -> (count: usize)
    requires
        given(*matches).dom().contains(name@),
    ensures
        count == given(*matches)[name@].len(),
{
    matches.opt_count(name)
}

/// `getopts::Matches::opt_str`: the value that the option was given with the
/// first time, if it was given and with a value. The call panics on a name
/// that was not described.
#[verifier::external_body]
pub(crate) fn opt_str(matches: &getopts::Matches, name: &str) -> (value: Option<String>)
    requires
        given(*matches).dom().contains(name@),
    ensures
        match value {
            Some(text) => first_value(given(*matches)[name@]) == Some(text@),
            None => first_value(given(*matches)[name@]) is None,
        },
{
    matches.opt_str(name)
}

/// `getopts::Options::usage`: the help text of the description under the
/// line `brief`, which `usage_text` names. The call panics on a short name
/// that does not fit.
#[verifier::external_body]
pub(crate) fn options_usage(options: &getopts::Options, brief: &str) -> (text: String)
    requires
        all_fit(described(*options)),
    ensures
        text@ == usage_text(*options, brief@),
{
    options.usage(brief)
}

/// The `Display` of `getopts::Fail`: the failure as a sentence, which
/// `sentence` names.
#[verifier::external_body]
pub(crate) fn fail_text(fail: &getopts::Fail) -> (text: String)
    ensures
        text@ == sentence(*fail),
{
    fail.to_string()
}

} // verus!
