//! The worker: its arguments, and what it does with each line that it reads.
use vstd::prelude::*;
use crate::batch::{is_processed, refusal, Extractor, Request, Response, MAX_REQUEST_BYTES};
use crate::text::{same_text, texts};

verus! {

// ---------------------------------------------------------------------------------------------
// Arguments

/// The most threads that can be asked for.
pub const MAX_THREADS: usize = 32;

/// The number of threads where none is given: as many as can run at once, but no more than four.
pub open spec fn default_limit(available: Option<usize>) -> usize {
    match available {
        Some(n) => if n <= 4 {
            n
        } else {
            4
        },
        None => 1,
    }
}

/// The number of threads where none is given.
pub fn threads_by_default(available: Option<usize>) -> (threads: usize)
    ensures
        threads == default_limit(available),
{
    match available {
        Some(n) => if n <= 4 {
            n
        } else {
            4
        },
        None => 1,
    }
}

/// A decimal digit.
pub open spec fn is_digit(c: char) -> bool {
    '0' <= c <= '9'
}

/// One or more decimal digits.
pub open spec fn is_numeral(s: Seq<char>) -> bool {
    s.len() > 0 && forall|i: int| 0 <= i < s.len() ==> is_digit(#[trigger] s[i])
}

/// The number that decimal digits stand for.
pub open spec fn numeral_value(s: Seq<char>) -> nat
    decreases s.len(),
{
    if s.len() == 0 {
        0
    } else {
        numeral_value(s.drop_last()) * 10 + (s.last() as nat - '0' as nat) as nat
    }
}

/// The digits of a number: what follows a plus sign, where there is one.
pub open spec fn unsigned(s: Seq<char>) -> Seq<char> {
    if s.len() > 0 && s[0] == '+' {
        s.skip(1)
    } else {
        s
    }
}

/// The number that a text stands for, where it is one and fits.
pub open spec fn count_of(s: Seq<char>) -> Option<usize> {
    if is_numeral(unsigned(s)) && numeral_value(unsigned(s)) <= usize::MAX {
        Some(numeral_value(unsigned(s)) as usize)
    } else {
        None
    }
}

/// What is said of a text that is no number, or none that fits in `bits` bits.
pub uninterp spec fn count_error(text: Seq<char>, bits: u32) -> Seq<char>;

/// `str::parse::<usize>`: a number is one or more decimal digits after an optional plus sign, and
/// must fit; the text of the error depends on the text and on the width of a `usize`.
#[verifier::external_body]
fn parse_count(text: &str) -> (result: Result<usize, String>)
    ensures
        match result {
            Ok(n) => count_of(text@) == Some(n),
            Err(message) => count_of(text@) is None && message@ == count_error(
                text@,
                usize::BITS,
            ),
        },
{
    text.parse::<usize>().map_err(|error| error.to_string())
}

/// What the worker is asked to do.
#[derive(Debug, Clone, Copy, PartialEq, Eq, Structural)]
pub enum Command {
    /// Answer requests, with up to that many threads.
    Serve(usize),
    /// Say how it is used.
    Help,
}

/// What the arguments from position `k` on ask for, or what is wrong with them; `threads` is the
/// number of threads so far.
pub open spec fn command_from(args: Seq<Seq<char>>, k: int, threads: usize) -> Result<
    Command,
    Seq<char>,
>
    decreases args.len() - k,
{
    if k < 0 || k >= args.len() {
        Ok(Command::Serve(threads))
    } else if args[k] == "--stdio"@ {
        command_from(args, k + 1, threads)
    } else if args[k] == "--threads"@ {
        if k + 1 >= args.len() {
            Err("missing thread count"@)
        } else {
            match count_of(args[k + 1]) {
                Some(n) => if n <= MAX_THREADS {
                    command_from(args, k + 2, n)
                } else {
                    Err("threads must be from 1 to 32"@)
                },
                None => Err(count_error(args[k + 1], usize::BITS)),
            }
        }
    } else if args[k] == "--help"@ || args[k] == "-h"@ {
        Ok(Command::Help)
    } else {
        Err("unknown argument: "@ + args[k])
    }
}

/// What the arguments ask for, or what is wrong with them. The first thing that is wrong, or that
/// asks for help, decides; `threads` is the number of threads where none is given.
pub fn parse_arguments(args: &Vec<String>, threads: usize) -> (result: Result<Command, String>)
    ensures
        match result {
            Ok(command) => command_from(texts(args@), 0, threads) == Ok::<Command, Seq<char>>(
                command,
            ),
            Err(message) => command_from(texts(args@), 0, threads) == Err::<Command, Seq<char>>(
                message@,
            ),
        },
{
    let ghost all = texts(args@);
    let mut current = threads;
    let mut k: usize = 0;
    while k < args.len()
        invariant
            all == texts(args@),
            k <= args.len(),
            command_from(all, k as int, current) == command_from(all, 0, threads),
        decreases args.len() - k,
    {
        let arg = args[k].as_str();
        assert(all[k as int] == arg@);
        if same_text(arg, "--stdio") {
            k = k + 1;
        } else if same_text(arg, "--threads") {
            if k == args.len() - 1 {
                return Err("missing thread count".to_owned());
            }
            assert(all[k + 1] == args@[k + 1]@);
            match parse_count(args[k + 1].as_str()) {
                Ok(n) => {
                    if n > MAX_THREADS {
                        return Err("threads must be from 1 to 32".to_owned());
                    }
                    current = n;
                },
                Err(message) => {
                    return Err(message);
                },
            }
            k = k + 2;
        } else if same_text(arg, "--help") || same_text(arg, "-h") {
            return Ok(Command::Help);
        } else {
            let mut message = "unknown argument: ".to_owned();
            message.append(arg);
            return Err(message);
        }
    }
    Ok(Command::Serve(current))
}

/// Arguments never give more threads than can be asked for.
proof fn lemma_limit(args: Seq<Seq<char>>, k: int, threads: usize)
    requires
        threads <= MAX_THREADS,
    ensures
        command_from(args, k, threads) matches Ok(Command::Serve(n)) ==> n <= MAX_THREADS,
    decreases args.len() - k,
{
    if 0 <= k < args.len() {
        lemma_limit(args, k + 1, threads);
        if k + 1 < args.len() {
            match count_of(args[k + 1]) {
                Some(n) => if n <= MAX_THREADS {
                    lemma_limit(args, k + 2, n);
                },
                None => {},
            }
        }
    }
}

/// What the worker starts as.
pub enum Worker {
    /// It answers requests.
    Serve(Extractor),
    /// It says how it is used.
    Help,
}

/// The worker for the arguments `args`, where `available` threads can run at once. From one to 32
/// threads can be asked for; where none are, there are as many as can run, but no more than four.
pub fn start(args: &Vec<String>, available: Option<usize>) -> (result: Result<Worker, String>)
    ensures
        match command_from(texts(args@), 0, default_limit(available)) {
            Ok(Command::Serve(threads)) => match result {
                Ok(Worker::Serve(extractor)) => 1 <= threads <= MAX_THREADS && extractor.wf()
                    && extractor.threads() == threads && extractor.pool() is None,
                Ok(Worker::Help) => false,
                Err(message) => threads == 0 && message@ == "threads must be a positive integer"@,
            },
            Ok(Command::Help) => result matches Ok(Worker::Help),
            Err(message) => result matches Err(text) && text@ == message,
        },
{
    let command = parse_arguments(args, threads_by_default(available));
    proof {
        lemma_limit(texts(args@), 0, default_limit(available));
    }
    match command {
        Ok(Command::Serve(threads)) => match Extractor::new(threads) {
            Ok(extractor) => Ok(Worker::Serve(extractor)),
            Err(message) => Err(message),
        },
        Ok(Command::Help) => Ok(Worker::Help),
        Err(message) => Err(message),
    }
}

// ---------------------------------------------------------------------------------------------
// Requests

/// What the worker does with the bytes that it has read.
pub enum Step {
    /// There is nothing left to read: it ends.
    End,
    /// The line is a request, to be decoded.
    Decode,
    /// The line is too long: it sends the response and fails with the message.
    Close(Response, String),
}

/// What the worker does with the line `line`, which is cut off after one byte more than a request
/// may have.
pub fn step(line: &[u8]) -> (step: Step)
    ensures
        match step {
            Step::End => line@.len() == 0,
            Step::Decode => 0 < line@.len() <= MAX_REQUEST_BYTES,
            Step::Close(response, message) => line@.len() > MAX_REQUEST_BYTES && response@
                == refusal(None, "request exceeds 16 MiB"@) && message@
                == "oversized request; worker closed"@,
        },
{
    if line.len() == 0 {
        Step::End
    } else if line.len() > MAX_REQUEST_BYTES {
        Step::Close(
            Response::error(None, "request exceeds 16 MiB".to_owned()),
            "oversized request; worker closed".to_owned(),
        )
    } else {
        Step::Decode
    }
}

/// The response to a line that is no request; `error` says why.
pub fn invalid_request(error: &str) -> (response: Response)
    ensures
        response@ == refusal(None, "invalid request: "@ + error@),
{
    let mut message = "invalid request: ".to_owned();
    message.append(error);
    Response::error(None, message)
}

/// The response to a line that was decoded into a request, or could not be.
pub fn respond(extractor: &mut Extractor, decoded: Result<Request, String>) -> (response: Response)
    requires
        old(extractor).wf(),
    ensures
        final(extractor).wf(),
        match decoded {
            Ok(request) => is_processed(*old(extractor), request, *final(extractor), response@),
            Err(error) => *final(extractor) == *old(extractor) && response@ == refusal(
                None,
                "invalid request: "@ + error@,
            ),
        },
{
    match decoded {
        Ok(request) => extractor.process(request),
        Err(error) => invalid_request(error.as_str()),
    }
}

} // verus!
