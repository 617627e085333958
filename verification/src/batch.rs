//! Batches of files, extracted in order, on one thread or on several.
use vstd::prelude::*;
use vstd::utf8::encode_utf8;
use rayon::iter::{IntoParallelRefIterator, ParallelIterator};
use crate::cpp::{cpp_parser, CppParser};
use crate::extraction::{
    extract, is_extraction_of, Extraction, ExtractionView, MAX_SOURCE_BYTES,
};
use crate::pool::{current_num_threads, is_build_failure, pool_threads, thread_pool};
use crate::syntax::optional_text;

verus! {

/// The most files in a request.
pub const MAX_FILES: usize = 64;

/// The largest request, in bytes.
pub const MAX_REQUEST_BYTES: usize = 16 * 1024 * 1024;

/// The longest path label, in bytes.
pub const MAX_PATH_BYTES: usize = 4096;

/// The least number of bytes of a batch that is worth more than one thread.
pub const PARALLEL_MIN_BYTES: usize = 64 * 1024;

/// What a file is, mathematically.
pub struct InputFileView {
    pub path: Seq<char>,
    pub source: Seq<char>,
}

/// A file: a label that is never opened, and its text.
#[derive(Debug)]
pub struct InputFile {
    pub path: String,
    pub source: String,
}

impl View for InputFile {
    type V = InputFileView;

    open spec fn view(&self) -> InputFileView {
        InputFileView { path: self.path@, source: self.source@ }
    }
}

/// A batch of files.
#[derive(Debug)]
pub struct Request {
    pub id: u64,
    pub files: Vec<InputFile>,
}

/// The mathematical values of a list of files.
pub open spec fn file_views(files: Seq<InputFile>) -> Seq<InputFileView> {
    files.map_values(|f: InputFile| f@)
}

/// What the result of a file is, mathematically.
pub struct FileResultView {
    pub path: Seq<char>,
    pub extraction: Option<ExtractionView>,
    pub error: Option<Seq<char>>,
}

/// The extraction of a file, or why there is none.
#[derive(Debug)]
pub struct FileResult {
    pub path: String,
    pub extraction: Option<Extraction>,
    pub error: Option<String>,
}

impl View for FileResult {
    type V = FileResultView;

    open spec fn view(&self) -> FileResultView {
        FileResultView {
            path: self.path@,
            extraction: match self.extraction {
                Some(extraction) => Some(extraction@),
                None => None,
            },
            error: optional_text(self.error),
        }
    }
}

/// The mathematical values of a list of results.
pub open spec fn result_views(results: Seq<FileResult>) -> Seq<FileResultView> {
    results.map_values(|r: FileResult| r@)
}

/// What a response is, mathematically.
pub struct ResponseView {
    pub id: Option<u64>,
    pub results: Seq<FileResultView>,
    pub parallel: bool,
    pub worker_threads: int,
    pub error: Option<Seq<char>>,
}

/// The answer to a request: a result for each file, in order, or why the request was refused.
#[derive(Debug)]
pub struct Response {
    pub id: Option<u64>,
    pub results: Vec<FileResult>,
    /// Whether more than one thread worked.
    pub parallel: bool,
    /// The number of threads that worked.
    pub worker_threads: usize,
    pub error: Option<String>,
}

impl View for Response {
    type V = ResponseView;

    open spec fn view(&self) -> ResponseView {
        ResponseView {
            id: self.id,
            results: result_views(self.results@),
            parallel: self.parallel,
            worker_threads: self.worker_threads as int,
            error: optional_text(self.error),
        }
    }
}

/// The response that refuses a request.
pub open spec fn refusal(id: Option<u64>, message: Seq<char>) -> ResponseView {
    ResponseView {
        id,
        results: Seq::empty(),
        parallel: false,
        worker_threads: 0,
        error: Some(message),
    }
}

impl Response {
    /// The response that refuses a request.
    pub fn error(id: Option<u64>, message: String) -> (response: Response)
        ensures
            response@ == refusal(id, message@),
    {
        let response = Response {
            id,
            results: Vec::new(),
            parallel: false,
            worker_threads: 0,
            error: Some(message),
        };
        assert(response@.results =~= Seq::<FileResultView>::empty());
        response
    }
}

// ---------------------------------------------------------------------------------------------
// One file

/// The length of a text in bytes.
pub open spec fn byte_length(text: Seq<char>) -> int {
    encode_utf8(text).len() as int
}

/// Why a file is not extracted.
pub open spec fn file_error(file: InputFileView) -> Option<Seq<char>> {
    if byte_length(file.path) > MAX_PATH_BYTES {
        Some("path label exceeds 4096 bytes"@)
    } else if byte_length(file.source) > MAX_SOURCE_BYTES {
        Some("source exceeds 4 MiB"@)
    } else {
        None
    }
}

/// Whether `result` is that of a file: the error of the file, or an extraction of its source.
pub open spec fn is_result(result: FileResultView, file: InputFileView) -> bool {
    &&& result.path == file.path
    &&& result.error == file_error(file)
    &&& match result.extraction {
        Some(extraction) => file_error(file) is None && is_extraction_of(extraction, file.source),
        None => file_error(file) is Some,
    }
}

/// Whether `results` are those of files, in order.
pub open spec fn are_results(results: Seq<FileResultView>, files: Seq<InputFileView>) -> bool {
    &&& results.len() == files.len()
    &&& forall|i: int| 0 <= i < files.len() ==> is_result(#[trigger] results[i], files[i])
}

/// The result of a file, extracted with `parser`.
pub fn file_result(file: &InputFile, parser: &mut CppParser) -> (result: FileResult)
    requires
        old(parser).ready(),
    ensures
        final(parser).ready(),
        is_result(result@, file@),
{
    let parsed = if file.path.as_str().as_bytes().len() > MAX_PATH_BYTES {
        Err("path label exceeds 4096 bytes".to_owned())
    } else {
        extract(parser, file.source.as_str())
    };
    match parsed {
        Ok(extraction) => FileResult {
            path: file.path.clone(),
            extraction: Some(extraction),
            error: None,
        },
        Err(error) => FileResult { path: file.path.clone(), extraction: None, error: Some(error) },
    }
}

/// The result of a file, extracted with the parser of a thread.
fn file_result_by(file: &InputFile, parser: &mut Result<CppParser, String>) -> (result: FileResult)
    requires
        *old(parser) matches Ok(parser) && parser.ready(),
    ensures
        *final(parser) matches Ok(parser) && parser.ready(),
        is_result(result@, file@),
{
    match parser {
        Ok(parser) => file_result(file, parser),
        Err(error) => FileResult {
            path: file.path.clone(),
            extraction: None,
            error: Some(error.clone()),
        },
    }
}

/// `rayon::ThreadPool::install` around rayon's parallel `map_init` and `collect` over a slice. Each
/// job makes a parser with `cpp_parser` and calls `file_result_by` with it on one file after the
/// other, on each file once; the results come in the order of the files. So each is what
/// `file_result_by` returns for its file, with a parser that is ready.
#[verifier::external_body]
fn results_in_parallel(pool: &rayon::ThreadPool, files: &Vec<InputFile>) -> (results: Vec<
    FileResult,
>)
    ensures
        are_results(result_views(results@), file_views(files@)),
{
    pool.install(|| {
        files
            .par_iter()
            .map_init(cpp_parser, |parser, file| file_result_by(file, parser))
            .collect()
    })
}

// ---------------------------------------------------------------------------------------------
// The plan of a batch

/// The number of bytes of all sources together.
pub open spec fn total_bytes(files: Seq<InputFileView>) -> int
    decreases files.len(),
{
    if files.len() == 0 {
        0
    } else {
        total_bytes(files.drop_last()) + byte_length(files.last().source)
    }
}

/// How a batch is worked on.
#[derive(Debug, Clone, Copy, PartialEq, Eq, Structural)]
pub struct Plan {
    pub parallel: bool,
    pub worker_threads: usize,
}

/// The lesser of two numbers.
pub open spec fn lesser(a: int, b: int) -> int {
    if a <= b {
        a
    } else {
        b
    }
}

/// Whether `files` files of `bytes` bytes are worked on by several of up to `threads` threads.
pub open spec fn works_in_parallel(threads: int, files: int, bytes: int) -> bool {
    lesser(threads, files) > 1 && bytes >= PARALLEL_MIN_BYTES
}

/// The number of threads that work on `files` files of `bytes` bytes.
pub open spec fn planned_threads(threads: int, files: int, bytes: int) -> int {
    if works_in_parallel(threads, files, bytes) {
        lesser(threads, files)
    } else {
        lesser(files, 1)
    }
}

/// The plan for `files` files of `bytes` bytes with up to `threads` threads: several threads only
/// where there are several files and enough bytes, and never more threads than files.
pub fn plan(threads: usize, files: usize, bytes: usize) -> (plan: Plan)
    ensures
        plan.parallel == works_in_parallel(threads as int, files as int, bytes as int),
        plan.worker_threads == planned_threads(threads as int, files as int, bytes as int),
{
    let capped = if threads <= files {
        threads
    } else {
        files
    };
    let parallel = capped > 1 && bytes >= PARALLEL_MIN_BYTES;
    let worker_threads = if parallel {
        capped
    } else if files == 0 {
        0
    } else {
        1
    };
    Plan { parallel, worker_threads }
}

/// The number of bytes of all sources together, where that is no more than a request may hold.
fn source_bytes(files: &Vec<InputFile>) -> (bytes: Option<usize>)
    ensures
        match bytes {
            Some(bytes) => bytes == total_bytes(file_views(files@)) && bytes <= MAX_REQUEST_BYTES,
            None => total_bytes(file_views(files@)) > MAX_REQUEST_BYTES,
        },
{
    let ghost all = file_views(files@);
    let mut bytes: usize = 0;
    let mut i: usize = 0;
    assert(all.take(0) =~= Seq::<InputFileView>::empty());
    while i < files.len()
        invariant
            all == file_views(files@),
            i <= files.len(),
            bytes <= MAX_REQUEST_BYTES,
            bytes == total_bytes(all.take(i as int)),
        decreases files.len() - i,
    {
        let length = files[i].source.as_str().as_bytes().len();
        proof {
            assert(all.take(i + 1).drop_last() =~= all.take(i as int));
            assert(all.take(i + 1).last() == files@[i as int]@);
        }
        if length > MAX_REQUEST_BYTES - bytes {
            proof {
                lemma_total_bytes(all, i + 1);
            }
            return None;
        }
        bytes = bytes + length;
        i = i + 1;
    }
    assert(all.take(files.len() as int) =~= all);
    Some(bytes)
}

/// The first files have no more bytes than all.
proof fn lemma_total_bytes(files: Seq<InputFileView>, n: int)
    requires
        0 <= n <= files.len(),
    ensures
        0 <= total_bytes(files.take(n)) <= total_bytes(files),
    decreases files.len(),
{
    if n == files.len() {
        assert(files.take(n) =~= files);
        if n > 0 {
            lemma_total_bytes(files.drop_last(), n - 1);
            assert(files.drop_last().take(n - 1) =~= files.drop_last());
        }
    } else {
        lemma_total_bytes(files.drop_last(), n);
        assert(files.drop_last().take(n) =~= files.take(n));
    }
}

// ---------------------------------------------------------------------------------------------
// The extractor

/// Extracts batches of files. It keeps its parser and, between batches of the same size, its
/// threads.
pub struct Extractor {
    parser: CppParser,
    threads: usize,
    pool: Option<rayon::ThreadPool>,
}

/// Why a batch of `files` is refused.
pub open spec fn refusal_of(files: Seq<InputFileView>) -> Option<Seq<char>> {
    if files.len() > MAX_FILES {
        Some("batch exceeds 64 files"@)
    } else if total_bytes(files) > MAX_REQUEST_BYTES {
        Some("batch source exceeds 16 MiB"@)
    } else {
        None
    }
}

/// Whether a batch is worked on by several of up to `threads` threads.
pub open spec fn is_parallel(threads: int, files: Seq<InputFileView>) -> bool {
    works_in_parallel(threads, files.len() as int, total_bytes(files))
}

/// The number of threads that work on a batch with up to `threads` threads.
pub open spec fn batch_threads(threads: int, files: Seq<InputFileView>) -> int {
    planned_threads(threads, files.len() as int, total_bytes(files))
}

/// Whether `response` answers the request `id` for `files` with up to `threads` threads.
pub open spec fn is_answer(
    response: ResponseView,
    threads: int,
    id: u64,
    files: Seq<InputFileView>,
) -> bool {
    &&& response.id == Some(id)
    &&& are_results(response.results, files)
    &&& response.parallel == is_parallel(threads, files)
    &&& response.worker_threads == batch_threads(threads, files)
    &&& response.error is None
}

/// The number of threads of an optional pool.
pub open spec fn optional_threads(pool: Option<rayon::ThreadPool>) -> Option<int> {
    match pool {
        Some(pool) => Some(pool_threads(pool)),
        None => None,
    }
}

/// The number of threads of the pool that a batch needs.
pub open spec fn needed_pool(plan: Plan) -> Option<int> {
    if plan.parallel {
        Some(plan.worker_threads as int)
    } else {
        None
    }
}

/// The plan for `files` with up to `threads` threads.
pub open spec fn is_plan(plan: Plan, threads: int, files: Seq<InputFileView>) -> bool {
    plan.parallel == is_parallel(threads, files) && plan.worker_threads == batch_threads(
        threads,
        files,
    )
}

/// The number of threads of the pool that a batch needs with up to `threads` threads.
pub open spec fn needed_threads(threads: int, files: Seq<InputFileView>) -> Option<int> {
    if is_parallel(threads, files) {
        Some(batch_threads(threads, files))
    } else {
        None
    }
}

/// Whether `response` refuses the request `id` because the system does not give `threads` threads.
pub open spec fn is_refused_by_system(response: ResponseView, id: u64, threads: int) -> bool {
    exists|n: usize, message: Seq<char>|
        n == threads && #[trigger] is_build_failure(n, message) && response == refusal(
            Some(id),
            message,
        )
}

/// What an extractor `before`, asked for `request`, responds and becomes. A batch that is too
/// large is refused and gives up the threads. Any other is answered, and exactly the threads that
/// it needs are kept; only where it needs threads that are not at hand, and the system does not
/// give them, is it refused instead, for the reason that the system gives.
pub open spec fn is_processed(
    before: Extractor,
    request: Request,
    after: Extractor,
    response: ResponseView,
) -> bool {
    let files = file_views(request.files@);
    let needed = needed_threads(before.threads(), files);
    &&& after.threads() == before.threads()
    &&& match refusal_of(files) {
        Some(message) => response == refusal(Some(request.id), message) && after.pool() is None,
        None => {
            ||| is_answer(response, before.threads(), request.id, files) && after.pool() == needed
            ||| {
                &&& needed is Some
                &&& before.pool() != needed
                &&& is_refused_by_system(response, request.id, needed->0)
                &&& after.pool() is None
            }
        },
    }
}

impl Extractor {
    /// Whether the extractor can work.
    pub closed spec fn wf(self) -> bool {
        self.parser.ready() && self.threads > 0
    }

    /// The most threads that work on a batch.
    pub closed spec fn threads(self) -> int {
        self.threads as int
    }

    /// The number of threads that are kept.
    pub closed spec fn pool(self) -> Option<int> {
        optional_threads(self.pool)
    }

    /// An extractor with up to `threads` threads.
    pub fn new(threads: usize) -> (result: Result<Extractor, String>)
        ensures
            match result {
                Ok(extractor) => threads > 0 && extractor.wf() && extractor.threads() == threads
                    && extractor.pool() is None,
                Err(message) => threads == 0 && message@ == "threads must be a positive integer"@,
            },
    {
        if threads == 0 {
            return Err("threads must be a positive integer".to_owned());
        }
        match cpp_parser() {
            Ok(parser) => Ok(Extractor { parser, threads, pool: None }),
            Err(message) => Err(message),
        }
    }

    /// The plan for a batch, or why it is refused.
    fn plan_batch(&self, files: &Vec<InputFile>) -> (result: Result<Plan, String>)
        ensures
            match result {
                Ok(plan) => refusal_of(file_views(files@)) is None && is_plan(
                    plan,
                    self.threads(),
                    file_views(files@),
                ),
                Err(message) => refusal_of(file_views(files@)) == Some(message@),
            },
    {
        let ghost all = file_views(files@);
        assert(all.len() == files.len());
        if files.len() > MAX_FILES {
            return Err("batch exceeds 64 files".to_owned());
        }
        match source_bytes(files) {
            Some(bytes) => Ok(plan(self.threads, files.len(), bytes)),
            None => Err("batch source exceeds 16 MiB".to_owned()),
        }
    }

    /// Gives up the kept threads, and hands them back where they are as many as `plan` needs.
    fn matching_pool(&mut self, plan: Plan) -> (pool: Option<rayon::ThreadPool>)
        ensures
            final(self).wf() == old(self).wf(),
            final(self).threads() == old(self).threads(),
            final(self).pool() is None,
            match pool {
                Some(pool) => plan.parallel && old(self).pool() == needed_pool(plan) && Some(
                    pool_threads(pool),
                ) == needed_pool(plan),
                None => !plan.parallel || old(self).pool() != needed_pool(plan),
            },
    {
        let kept = self.pool.take();
        match kept {
            Some(pool) => if plan.parallel && current_num_threads(&pool) == plan.worker_threads {
                Some(pool)
            } else {
                None
            },
            None => None,
        }
    }

    /// Answers a request that `plan` is the plan of, once it is known whether the threads that it
    /// needs could be had.
    pub fn answer_with(
        &mut self,
        request: Request,
        plan: Plan,
        pool: Result<Option<rayon::ThreadPool>, String>,
    ) -> (response: Response)
        requires
            old(self).wf(),
            is_plan(plan, old(self).threads(), file_views(request.files@)),
            pool matches Ok(pool) ==> optional_threads(pool) == needed_pool(plan),
        ensures
            final(self).wf(),
            final(self).threads() == old(self).threads(),
            match pool {
                Ok(pool) => is_answer(
                    response@,
                    old(self).threads(),
                    request.id,
                    file_views(request.files@),
                ) && final(self).pool() == needed_pool(plan),
                Err(message) => response@ == refusal(Some(request.id), message@)
                    && final(self).pool() is None,
            },
    {
        let pool = match pool {
            Ok(pool) => pool,
            Err(message) => {
                self.pool = None;
                return Response::error(Some(request.id), message);
            },
        };
        let results = match &pool {
            Some(pool) => results_in_parallel(pool, &request.files),
            None => self.results_in_turn(&request.files),
        };
        let worker_threads = match &pool {
            Some(pool) => current_num_threads(pool),
            None => plan.worker_threads,
        };
        self.pool = pool;
        Response {
            id: Some(request.id),
            results,
            parallel: plan.parallel,
            worker_threads,
            error: None,
        }
    }

    /// The results of files, one after the other.
    fn results_in_turn(&mut self, files: &Vec<InputFile>) -> (results: Vec<FileResult>)
        requires
            old(self).wf(),
        ensures
            final(self).wf(),
            final(self).threads() == old(self).threads(),
            are_results(result_views(results@), file_views(files@)),
    {
        let ghost all = file_views(files@);
        let mut results: Vec<FileResult> = Vec::new();
        let mut i: usize = 0;
        while i < files.len()
            invariant
                all == file_views(files@),
                self.wf(),
                self.threads() == old(self).threads(),
                i <= files.len(),
                results.len() == i,
                forall|k: int| 0 <= k < i ==> is_result(#[trigger] results@[k]@, all[k]),
            decreases files.len() - i,
        {
            results.push(file_result(&files[i], &mut self.parser));
            i = i + 1;
        }
        results
    }

    /// Answers a request. It is refused where it has too many files or bytes, or where the threads
    /// that it needs cannot be had.
    pub fn process(&mut self, request: Request) -> (response: Response)
        requires
            old(self).wf(),
        ensures
            final(self).wf(),
            is_processed(*old(self), request, *final(self), response@),
    {
        let ghost all = file_views(request.files@);
        let plan = match self.plan_batch(&request.files) {
            Ok(plan) => plan,
            Err(message) => {
                self.pool = None;
                return Response::error(Some(request.id), message);
            },
        };
        assert(all.len() == request.files.len());
        let kept = self.matching_pool(plan);
        let pool = if !plan.parallel || kept.is_some() {
            Ok(kept)
        } else {
            match thread_pool(plan.worker_threads) {
                Ok(pool) => Ok(Some(pool)),
                Err(message) => Err(message),
            }
        };
        self.answer_with(request, plan, pool)
    }
}

} // verus!
