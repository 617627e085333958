use pi_source_extractor::batch::{file_result, plan, Plan};
use pi_source_extractor::pool::threads_for_cores;
use pi_source_extractor::{
    cpp_parser, default_threads, extract, Extractor, InputFile, Request, Response, MAX_FILES,
    MAX_REQUEST_BYTES, MAX_SOURCE_BYTES,
};

fn file(path: &str, source: &str) -> InputFile {
    InputFile { path: path.into(), source: source.into() }
}

fn batch(id: u64, count: usize, bytes: usize) -> Request {
    let files = (0..count).map(|i| file(&format!("{i}.cpp"), &" ".repeat(bytes))).collect();
    Request { id, files }
}

#[test]
fn limits() {
    assert_eq!(MAX_FILES, 64);
    assert_eq!(MAX_SOURCE_BYTES, 4_194_304);
    assert_eq!(MAX_REQUEST_BYTES, 16_777_216);
}

#[test]
fn plans_never_use_more_threads_than_files_or_than_allowed() {
    let planned = |parallel, worker_threads| Plan { parallel, worker_threads };
    assert_eq!(plan(4, 8, 65_536), planned(true, 4));
    assert_eq!(plan(8, 4, 65_536), planned(true, 4));
    assert_eq!(plan(4, 8, 65_535), planned(false, 1));
    assert_eq!(plan(1, 8, 1_000_000), planned(false, 1));
    assert_eq!(plan(8, 1, 1_000_000), planned(false, 1));
    assert_eq!(plan(8, 0, 0), planned(false, 0));
    assert_eq!(plan(64, 2, 65_536), planned(true, 2));
}

#[test]
fn threads_must_be_positive() {
    assert_eq!(Extractor::new(0).err().unwrap(), "threads must be a positive integer");
    assert!(Extractor::new(1).is_ok());
    assert!(Extractor::new(usize::MAX).is_ok());
    assert_eq!(threads_for_cores(0), 1);
    assert_eq!(threads_for_cores(6), 6);
    assert!(default_threads() >= 1);
}

#[test]
fn an_error_response_has_no_results() {
    let response = Response::error(Some(9), "reason".to_string());
    assert_eq!(response.id, Some(9));
    assert!(response.results.is_empty());
    assert!(!response.parallel);
    assert_eq!(response.worker_threads, 0);
    assert_eq!(response.error.as_deref(), Some("reason"));
}

#[test]
fn too_many_files_are_refused() {
    let mut extractor = Extractor::new(2).unwrap();
    let response = extractor.process(batch(5, 65, 0));
    assert_eq!(response.id, Some(5));
    assert_eq!(response.error.as_deref(), Some("batch exceeds 64 files"));
    assert!(response.results.is_empty());
    let response = extractor.process(batch(6, 64, 0));
    assert!(response.error.is_none());
    assert_eq!(response.results.len(), 64);
    assert_eq!((response.parallel, response.worker_threads), (false, 1));
}

#[test]
fn too_many_bytes_are_refused() {
    let mut extractor = Extractor::new(2).unwrap();
    let mut request = batch(1, 4, 4 * 1024 * 1024);
    request.files.push(file("one more", " "));
    let response = extractor.process(request);
    assert_eq!(response.error.as_deref(), Some("batch source exceeds 16 MiB"));
    assert_eq!(response.worker_threads, 0);
}

#[test]
fn a_source_over_the_limit_is_an_error_of_its_file() {
    let large = file("large.cpp", &" ".repeat(MAX_SOURCE_BYTES + 1));
    let result = file_result(&large, &mut cpp_parser().unwrap());
    assert_eq!(result.path, "large.cpp");
    assert_eq!(result.error.as_deref(), Some("source exceeds 4 MiB"));
    assert!(result.extraction.is_none());
    let error = extract(&mut cpp_parser().unwrap(), &large.source).unwrap_err();
    assert_eq!(error, "source exceeds 4 MiB");
    let mut extractor = Extractor::new(1).unwrap();
    let response = extractor.process(Request { id: 2, files: vec![large, file("b", "")] });
    assert!(response.error.is_none());
    assert!(response.results[0].error.is_some());
    assert!(response.results[1].extraction.is_some());
}

#[test]
fn a_long_path_is_an_error_of_its_file() {
    let mut parser = cpp_parser().unwrap();
    let long = "é".repeat(2049);
    let result = file_result(&file(&long, "int f() {}"), &mut parser);
    assert_eq!(result.path, long);
    assert_eq!(result.error.as_deref(), Some("path label exceeds 4096 bytes"));
    let result = file_result(&file(&"é".repeat(2048), "int f() {}"), &mut parser);
    assert!(result.error.is_none());
    assert_eq!(result.extraction.unwrap().units[0].name, "f");
}

#[test]
fn a_long_path_is_reported_before_a_large_source() {
    let both = file(&"p".repeat(4097), &" ".repeat(MAX_SOURCE_BYTES + 1));
    let result = file_result(&both, &mut cpp_parser().unwrap());
    assert_eq!(result.error.as_deref(), Some("path label exceeds 4096 bytes"));
}

#[test]
fn a_parallel_batch_reports_its_threads_and_keeps_the_order() {
    let mut extractor = Extractor::new(3).unwrap();
    for round in 0..2 {
        let files = (0..7)
            .map(|i| {
                let padding = "x".repeat(10_000);
                file(&format!("{i}.cpp"), &format!("// {padding}\nint f{i}() {{}}"))
            })
            .collect();
        let response = extractor.process(Request { id: round, files });
        assert_eq!(response.id, Some(round));
        assert!(response.parallel);
        assert_eq!(response.worker_threads, 3);
        assert!(response.error.is_none());
        for (i, result) in response.results.iter().enumerate() {
            assert_eq!(result.path, format!("{i}.cpp"));
            assert_eq!(result.extraction.as_ref().unwrap().units[0].name, format!("f{i}"));
            assert_eq!(result.extraction.as_ref().unwrap().units[0].line, 2);
        }
    }
}

#[test]
fn an_answer_depends_on_whether_the_threads_could_be_had() {
    let mut extractor = Extractor::new(2).unwrap();
    let two = plan(2, 2, 80_000);
    assert_eq!(two, Plan { parallel: true, worker_threads: 2 });
    let failed = extractor.answer_with(batch(3, 2, 40_000), two, Err("no threads".to_string()));
    assert_eq!(failed.id, Some(3));
    assert_eq!(failed.error.as_deref(), Some("no threads"));
    assert!(failed.results.is_empty());
    assert_eq!((failed.parallel, failed.worker_threads), (false, 0));
    let pool = rayon::ThreadPoolBuilder::new().num_threads(2).build().unwrap();
    let answered = extractor.answer_with(batch(4, 2, 40_000), two, Ok(Some(pool)));
    assert_eq!((answered.id, answered.results.len()), (Some(4), 2));
    assert_eq!((answered.parallel, answered.worker_threads), (true, 2));
    let one = plan(2, 1, 10);
    let serial = extractor.answer_with(batch(5, 1, 10), one, Ok(None));
    assert_eq!((serial.parallel, serial.worker_threads), (false, 1));
    assert_eq!(serial.results.len(), 1);
}

#[test]
fn results_do_not_depend_on_what_was_done_before() {
    let request = |id| Request { id, files: vec![file("a", "int a() { return b(1); }")] };
    let mut used = Extractor::new(4).unwrap();
    used.process(batch(1, 5, 40_000));
    used.process(batch(2, 65, 1));
    let fresh = Extractor::new(1).unwrap().process(request(3));
    let again = used.process(request(3));
    assert_eq!(fresh.results[0].extraction, again.results[0].extraction);
    assert_eq!(fresh.worker_threads, again.worker_threads);
}
