//! What a worker takes, refuses and answers, said of its arguments, of numbers of files and bytes
//! and of its messages.
use vstd::prelude::*;
use vstd::utf8::encode_utf8;
use crate::batch::{
    file_views, is_processed, refusal, total_bytes, Extractor, FileResultView, InputFileView,
    Request, ResponseView, MAX_FILES, MAX_PATH_BYTES, MAX_REQUEST_BYTES, PARALLEL_MIN_BYTES,
};
use crate::extraction::{is_extraction_of, MAX_SOURCE_BYTES};
use crate::pool::is_for_cores;
use crate::protocol::{
    command_from, count_error, count_of, default_limit, numeral_value, Command, MAX_THREADS,
};
use crate::text::decimal;
use crate::text_laws::{law_decimal, value_of};

verus! {

/// The limits: 64 files, 16 MiB in a request, 4 MiB in a source, 4096 bytes in a path, 32 threads;
/// and 64 KiB before several threads work.
pub proof fn law_limits()
    ensures
        MAX_FILES == 64,
        MAX_REQUEST_BYTES == 16_777_216,
        MAX_SOURCE_BYTES == 4_194_304,
        MAX_PATH_BYTES == 4096,
        PARALLEL_MIN_BYTES == 65_536,
        MAX_THREADS == 32,
{
}

/// The bytes of a batch are those of its sources, all added up.
pub proof fn law_bytes_of_a_batch(files: Seq<InputFileView>, file: InputFileView)
    ensures
        total_bytes(Seq::empty()) == 0,
        total_bytes(files.push(file)) == total_bytes(files) + encode_utf8(file.source).len(),
{
    assert(files.push(file).drop_last() =~= files);
}

/// A response that refuses a request holds the reason and no results.
pub proof fn law_refusals(id: Option<u64>, message: Seq<char>)
    ensures
        refusal(id, message).id == id,
        refusal(id, message).error == Some(message),
        refusal(id, message).results.len() == 0,
        !refusal(id, message).parallel,
        refusal(id, message).worker_threads == 0,
{
}

/// A batch of more than 64 files, or of more than 16 MiB, is refused and says so. Any other is
/// answered, unless it needs threads: then it has several files and 64 KiB or more, and several
/// threads are allowed.
pub proof fn law_refused_batches(
    before: Extractor,
    request: Request,
    after: Extractor,
    response: ResponseView,
)
    requires
        is_processed(before, request, after, response),
    ensures
        ({
            let files = file_views(request.files@);
            let bytes = total_bytes(files);
            &&& files.len() > 64 ==> response.error == Some("batch exceeds 64 files"@)
            &&& files.len() <= 64 && bytes > 16_777_216 ==> response.error == Some(
                "batch source exceeds 16 MiB"@,
            )
            &&& files.len() <= 64 && bytes <= 16_777_216 && (files.len() < 2 || bytes < 65_536
                || before.threads() < 2) ==> response.error is None
            &&& response.id == Some(request.id)
            &&& response.error is Some ==> response.results.len() == 0 && after.pool() is None
            &&& after.threads() == before.threads()
        }),
{
}

/// Whether `result` is that of `file`: under its path, with an error where the path has more than
/// 4096 bytes or the source more than 4 MiB, and else with an extraction of the source.
pub open spec fn is_result_of(result: FileResultView, file: InputFileView) -> bool {
    let path_bytes = encode_utf8(file.path).len();
    let source_bytes = encode_utf8(file.source).len();
    &&& result.path == file.path
    &&& path_bytes > 4096 ==> result.error == Some("path label exceeds 4096 bytes"@)
        && result.extraction is None
    &&& path_bytes <= 4096 && source_bytes > 4_194_304 ==> result.error == Some(
        "source exceeds 4 MiB"@,
    ) && result.extraction is None
    &&& path_bytes <= 4096 && source_bytes <= 4_194_304 ==> result.error is None && (
    result.extraction matches Some(extraction) && is_extraction_of(extraction, file.source))
}

/// A batch that is answered has the result of each file, in order. Several threads work exactly
/// where there are several files, 64 KiB or more and several threads allowed: as many as there are
/// files, or as are allowed. Only those are kept.
pub proof fn law_answered_batches(
    before: Extractor,
    request: Request,
    after: Extractor,
    response: ResponseView,
    i: int,
)
    requires
        is_processed(before, request, after, response),
        response.error is None,
    ensures
        ({
            let files = file_views(request.files@);
            let n = files.len() as int;
            let several = n >= 2 && before.threads() >= 2 && total_bytes(files) >= 65_536;
            &&& response.results.len() == n
            &&& 0 <= i < n ==> is_result_of(response.results[i], files[i])
            &&& response.parallel == several
            &&& several && n <= before.threads() ==> response.worker_threads == n
            &&& several && n > before.threads() ==> response.worker_threads == before.threads()
            &&& !several && n == 0 ==> response.worker_threads == 0
            &&& !several && n >= 1 ==> response.worker_threads == 1
            &&& several ==> after.pool() == Some(response.worker_threads)
            &&& !several ==> after.pool() is None
        }),
{
}

/// Without a number of threads there are as many as can run at once, but no more than four, and one
/// where that is not known. On a machine with some cores there are as many threads, and at least
/// one.
pub proof fn law_default_threads(available: usize, cores: usize, threads: usize)
    ensures
        default_limit(None) == 1,
        available <= 4 ==> default_limit(Some(available)) == available,
        available > 4 ==> default_limit(Some(available)) == 4,
        is_for_cores(threads, cores) && cores > 0 ==> threads == cores,
        is_for_cores(threads, 0) ==> threads == 1,
{
}

/// The arguments are taken one after the other: `--stdio` changes nothing, `--threads` with a
/// number of up to 32 sets it, and the first that asks for help, or that is wrong, decides.
pub proof fn law_arguments(args: Seq<Seq<char>>, k: int, threads: usize)
    requires
        0 <= k <= args.len(),
    ensures
        k == args.len() ==> command_from(args, k, threads) == Ok::<Command, Seq<char>>(
            Command::Serve(threads),
        ),
        k < args.len() && args[k] == "--stdio"@ ==> command_from(args, k, threads) == command_from(
            args,
            k + 1,
            threads,
        ),
        k < args.len() && args[k] == "--threads"@ ==> {
            &&& k + 1 == args.len() ==> command_from(args, k, threads) == Err::<Command, Seq<char>>(
                "missing thread count"@,
            )
            &&& k + 1 < args.len() ==> match count_of(args[k + 1]) {
                Some(n) => {
                    &&& n <= 32 ==> command_from(args, k, threads) == command_from(args, k + 2, n)
                    &&& n > 32 ==> command_from(args, k, threads) == Err::<Command, Seq<char>>(
                        "threads must be from 1 to 32"@,
                    )
                },
                None => command_from(args, k, threads) == Err::<Command, Seq<char>>(
                    count_error(args[k + 1], usize::BITS),
                ),
            }
        },
        k < args.len() && (args[k] == "--help"@ || args[k] == "-h"@) ==> command_from(
            args,
            k,
            threads,
        ) == Ok::<Command, Seq<char>>(Command::Help),
        k < args.len() && args[k] != "--stdio"@ && args[k] != "--threads"@ && args[k] != "--help"@
            && args[k] != "-h"@ ==> command_from(args, k, threads) == Err::<Command, Seq<char>>(
            "unknown argument: "@ + args[k],
        ),
{
    reveal_strlit("--stdio");
    reveal_strlit("--threads");
    reveal_strlit("--help");
    reveal_strlit("-h");
    assert("--stdio"@.len() == 7 && "--threads"@.len() == 9 && "--help"@.len() == 6 && "-h"@.len()
        == 2);
}

proof fn lemma_numeral(s: Seq<char>)
    requires
        forall|k: int| 0 <= k < s.len() ==> '0' <= #[trigger] s[k] <= '9',
    ensures
        numeral_value(s) == value_of(s),
    decreases s.len(),
{
    if s.len() > 0 {
        let some = s.drop_last();
        assert forall|k: int| 0 <= k < some.len() implies '0' <= #[trigger] some[k] <= '9' by {
            assert(some[k] == s[k]);
        }
        lemma_numeral(some);
        assert('0' <= s[s.len() - 1] <= '9');
    }
}

/// A number is taken as it is written, with or without a plus sign; what holds anything but digits
/// is none.
pub proof fn law_counts(n: usize, text: Seq<char>, k: int)
    ensures
        count_of(decimal(n as nat)) == Some(n),
        count_of(seq!['+'] + decimal(n as nat)) == Some(n),
        0 < k < text.len() && !('0' <= text[k] <= '9') ==> count_of(text) is None,
        text.len() > 0 && text[0] != '+' && !('0' <= text[0] <= '9') ==> count_of(text) is None,
        text.len() == 0 ==> count_of(text) is None,
{
    let digits = decimal(n as nat);
    law_decimal(n as nat);
    lemma_numeral(digits);
    assert('0' <= digits[0] <= '9');
    let signed = seq!['+'] + digits;
    assert(signed.skip(1) =~= digits);
    if 0 < k < text.len() && !('0' <= text[k] <= '9') {
        let rest = text.skip(1);
        assert(rest[k - 1] == text[k]);
    }
}

} // verus!
