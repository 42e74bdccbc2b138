//! The command line of the sweep.
//!
//! Three shapes are understood, the program's own name included in each:
//! `<program> <address>`, `<program> -j <workers> <address>`, and anything
//! else, `<program> -h` among it, which asks for the usage text.

use vstd::prelude::*;
use crate::address::{ip_address_of, parse_ip_address, IpAddress};
use crate::text::{all_digits, chars_of, number, read_number};

verus! {

/// The number of workers where the command line names none.
pub const DEFAULT_THREADS: u16 = 4;

/// What a command line asks for.
#[derive(Debug)]
pub struct Arguments {
    /// The option that was given: `-j`, or nothing.
    pub flag: String,
    /// The address to sweep.
    pub ipaddr: IpAddress,
    /// The number of workers, at least one in what `Arguments::new` returns.
    pub threads: u16,
}

/// An `Arguments` with its text as a sequence of characters.
pub struct ArgumentsView {
    pub flag: Seq<char>,
    pub ipaddr: IpAddress,
    pub threads: u16,
}

impl View for Arguments {
    type V = ArgumentsView;

    open spec fn view(&self) -> ArgumentsView {
        ArgumentsView { flag: self.flag@, ipaddr: self.ipaddr, threads: self.threads }
    }
}

/// Why a command line was turned down.
#[derive(Clone, Copy, Debug, PartialEq, Eq, Structural)]
pub enum ArgumentError {
    /// More than four arguments.
    TooMany,
    /// Fewer than two arguments.
    TooFew,
    /// What follows `-j` and the worker count is no IP address.
    InvalidAddress,
    /// What follows `-j` is no number of workers: it is no number of sixteen
    /// bits, or it is zero.
    InvalidThreadCount,
    /// Any other shape; the caller is to show the usage text.
    Help,
}

/// The number of sixteen bits that `s` spells: decimal digits, at least one,
/// with an optional `+` before them, and no more than 65535. Zero is a number
/// like any other here; that a sweep needs a worker is a rule of
/// `parse_arguments`.
pub open spec fn thread_count_of(s: Seq<char>) -> Option<u16> {
    let digits = if s.len() > 0 && s[0] == '+' {
        s.drop_first()
    } else {
        s
    };
    if digits.len() >= 1 && all_digits(digits, 10) && number(digits, 10) <= 0xffff {
        Some(number(digits, 10) as u16)
    } else {
        None
    }
}

/// What the command line `args` asks for, the program's name being
/// `args[0]`. The rules apply in this order:
///
/// * more than four arguments, or fewer than two, are turned down;
/// * if `args[1]` is an IP address, it is swept with the default number of
///   workers, and whatever follows it is ignored;
/// * if `args[1]` is `-j` and two more arguments follow, the first of them
///   must be a number of workers and the second an IP address, and the
///   number is looked at first;
/// * anything else asks for help.
///
/// A sweep has at least one worker. A count of zero is therefore turned down
/// like a count that is no number, with `InvalidThreadCount`: there is no
/// error of its own for it.
pub open spec fn parse_arguments(args: Seq<Seq<char>>) -> Result<ArgumentsView, ArgumentError> {
    if args.len() > 4 {
        Err(ArgumentError::TooMany)
    } else if args.len() < 2 {
        Err(ArgumentError::TooFew)
    } else if let Some(ipaddr) = ip_address_of(args[1]) {
        Ok(ArgumentsView { flag: Seq::empty(), ipaddr, threads: DEFAULT_THREADS })
    } else if args[1] == seq!['-', 'j'] && args.len() > 3 {
        match thread_count_of(args[2]) {
            None => Err(ArgumentError::InvalidThreadCount),
            Some(threads) => if threads == 0 {
                Err(ArgumentError::InvalidThreadCount)
            } else {
                match ip_address_of(args[3]) {
                    None => Err(ArgumentError::InvalidAddress),
                    Some(ipaddr) => Ok(ArgumentsView { flag: args[1], ipaddr, threads }),
                }
            },
        }
    } else {
        Err(ArgumentError::Help)
    }
}

/// No command line yields a sweep without workers: whatever `args` is, what
/// `parse_arguments` accepts has at least one worker, and a count of zero
/// after `-j` is turned down with `InvalidThreadCount` whatever follows it.
pub proof fn lemma_accepted_has_a_worker(args: Seq<Seq<char>>)
    ensures
        parse_arguments(args) matches Ok(accepted) ==> accepted.threads >= 1,
        2 <= args.len() <= 4 && ip_address_of(args[1]) is None && args[1] == seq!['-', 'j']
            && args.len() > 3 && thread_count_of(args[2]) == Some(0u16) ==> parse_arguments(args)
            == Err::<ArgumentsView, ArgumentError>(ArgumentError::InvalidThreadCount),
{
}

/// How the program is called, one form to a line.
pub const USAGE: &'static str =
    "Usage:\n\tip_sniffer -h\n\tip_sniffer -j <thread_count> <ip address>\n\tip_sniffer <ip address>";

/// The usage text, as characters.
pub open spec fn usage_text() -> Seq<char> {
    USAGE@
}

/// The text that shows how the program is called.
pub fn usage() -> (text: &'static str)
    ensures
        text@ == usage_text(),
{
    USAGE
}

/// Reads `text` as a number of workers.
pub fn parse_thread_count(text: &str) -> (count: Option<u16>)
    ensures
        count == thread_count_of(text@),
{
    let mut digits = chars_of(text);
    if digits.len() > 0 && digits[0] == '+' {
        let ghost all = digits@;
        digits.remove(0);
        proof {
            assert(digits@ == all.drop_first());
        }
    }
    match read_number(&digits, 10, 0xffff) {
        Some(value) => Some(value as u16),
        None => None,
    }
}

impl ArgumentError {
    /// The message that goes with the error.
    pub fn message(&self) -> (text: &'static str)
        ensures
            text@ == match *self {
                ArgumentError::TooMany => "Too many arguments!!"@,
                ArgumentError::TooFew => "Too few arguments!!"@,
                ArgumentError::InvalidAddress => "Not a valid IP address!!"@,
                ArgumentError::InvalidThreadCount =>
                    "Argument for -j option should be an integer!!"@,
                ArgumentError::Help => "This is the help!!"@,
            },
    {
        match self {
            ArgumentError::TooMany => "Too many arguments!!",
            ArgumentError::TooFew => "Too few arguments!!",
            ArgumentError::InvalidAddress => "Not a valid IP address!!",
            ArgumentError::InvalidThreadCount => {
                "Argument for -j option should be an integer!!"
            },
            ArgumentError::Help => "This is the help!!",
        }
    }
}

impl Arguments {
    /// Reads the command line `args`, the program's name first. What it
    /// returns has at least one worker.
    pub fn new(args: &Vec<String>) -> (parsed: Result<Arguments, ArgumentError>)
        ensures
            parsed matches Ok(arguments) ==> arguments.threads >= 1,
            match parsed {
                Ok(arguments) => parse_arguments(args.deep_view()) == Ok::<
                    ArgumentsView,
                    ArgumentError,
                >(arguments@),
                Err(error) => parse_arguments(args.deep_view()) == Err::<
                    ArgumentsView,
                    ArgumentError,
                >(error),
            },
    {
        if args.len() > 4 {
            return Err(ArgumentError::TooMany);
        }
        if args.len() < 2 {
            return Err(ArgumentError::TooFew);
        }
        proof {
            assert(args.deep_view()[1] == args@[1]@);
        }
        if let Some(ipaddr) = parse_ip_address(args[1].as_str()) {
            return Ok(Arguments { flag: String::new(), ipaddr, threads: DEFAULT_THREADS });
        }
        let flag = chars_of(args[1].as_str());
        if flag.len() == 2 && flag[0] == '-' && flag[1] == 'j' && args.len() > 3 {
            proof {
                assert(args@[1]@ == seq!['-', 'j']);
                assert(args.deep_view()[2] == args@[2]@);
                assert(args.deep_view()[3] == args@[3]@);
            }
            match parse_thread_count(args[2].as_str()) {
                None => Err(ArgumentError::InvalidThreadCount),
                Some(threads) => {
                    if threads == 0 {
                        return Err(ArgumentError::InvalidThreadCount);
                    }
                    match parse_ip_address(args[3].as_str()) {
                        None => Err(ArgumentError::InvalidAddress),
                        Some(ipaddr) => Ok(
                            Arguments { flag: args[1].clone(), ipaddr, threads },
                        ),
                    }
                },
            }
        } else {
            proof {
                if args@[1]@ == seq!['-', 'j'] {
                    assert(flag@.len() == 2);
                }
            }
            Err(ArgumentError::Help)
        }
    }
}

} // verus!
