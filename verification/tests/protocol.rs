use pi_source_extractor::protocol::{
    invalid_request, parse_arguments, respond, start, step, threads_by_default, Command, Step,
    Worker,
};
use pi_source_extractor::{Extractor, InputFile, Request, MAX_REQUEST_BYTES};

fn arguments(values: &[&str]) -> Result<Command, String> {
    parse_arguments(&values.iter().map(|s| s.to_string()).collect(), 3)
}

#[test]
fn four_threads_at_most_by_default() {
    assert_eq!(threads_by_default(None), 1);
    assert_eq!(threads_by_default(Some(1)), 1);
    assert_eq!(threads_by_default(Some(4)), 4);
    assert_eq!(threads_by_default(Some(96)), 4);
}

#[test]
fn arguments_give_the_number_of_threads() {
    assert_eq!(arguments(&[]), Ok(Command::Serve(3)));
    assert_eq!(arguments(&["--stdio"]), Ok(Command::Serve(3)));
    assert_eq!(arguments(&["--stdio", "--threads", "8"]), Ok(Command::Serve(8)));
    assert_eq!(arguments(&["--threads", "8", "--threads", "+02"]), Ok(Command::Serve(2)));
    assert_eq!(arguments(&["--threads", "0"]), Ok(Command::Serve(0)));
    assert_eq!(arguments(&["--threads", "32"]), Ok(Command::Serve(32)));
}

#[test]
fn more_than_32_threads_are_refused() {
    let refused = Err("threads must be from 1 to 32".to_string());
    assert_eq!(arguments(&["--stdio", "--threads", "33"]), refused);
    assert_eq!(arguments(&["--threads", &usize::MAX.to_string(), "--help"]), refused);
}

#[test]
fn a_worker_starts_with_one_to_32_threads() {
    let started = |values: &[&str], available| {
        start(&values.iter().map(|s| s.to_string()).collect(), available)
    };
    for n in ["1", "32"] {
        assert!(matches!(started(&["--stdio", "--threads", n], Some(2)), Ok(Worker::Serve(_))));
    }
    assert!(matches!(started(&["--stdio"], Some(16)), Ok(Worker::Serve(_))));
    assert!(matches!(started(&["--stdio"], None), Ok(Worker::Serve(_))));
    assert!(matches!(started(&["--help"], None), Ok(Worker::Help)));
    let error = |values: &[&str]| started(values, Some(2)).err().unwrap();
    assert_eq!(error(&["--stdio", "--threads", "0"]), "threads must be a positive integer");
    assert_eq!(error(&["--stdio", "--threads", "33"]), "threads must be from 1 to 32");
    assert_eq!(error(&["--what"]), "unknown argument: --what");
}

#[test]
fn a_worker_keeps_its_limit_of_threads() {
    let serve = |values: &[&str], available| {
        match start(&values.iter().map(|s| s.to_string()).collect(), available) {
            Ok(Worker::Serve(extractor)) => extractor,
            _ => panic!("the worker serves"),
        }
    };
    let request = |id| {
        let file = |i| InputFile { path: format!("{i}"), source: " ".repeat(20_000) };
        Request { id, files: (0..6).map(file).collect() }
    };
    let mut limited = serve(&["--threads", "3"], Some(8));
    assert_eq!(respond(&mut limited, Ok(request(1))).worker_threads, 3);
    let mut standard = serve(&[], Some(8));
    assert_eq!(respond(&mut standard, Ok(request(2))).worker_threads, 4);
}

#[test]
fn help_ends_the_arguments() {
    assert_eq!(arguments(&["--help"]), Ok(Command::Help));
    assert_eq!(arguments(&["--threads", "2", "-h", "--what"]), Ok(Command::Help));
}

#[test]
fn wrong_arguments() {
    let error = |values: &[&str]| arguments(values).unwrap_err();
    assert_eq!(error(&["--threads"]), "missing thread count");
    assert_eq!(error(&["--verbose"]), "unknown argument: --verbose");
    assert_eq!(error(&["--what", "--help"]), "unknown argument: --what");
    assert_eq!(error(&[""]), "unknown argument: ");
    assert_eq!(error(&["--threads", "four"]), "invalid digit found in string");
    assert_eq!(error(&["--threads", " 4"]), "invalid digit found in string");
    assert_eq!(error(&["--threads", "-1"]), "invalid digit found in string");
    assert_eq!(error(&["--threads", "+"]), "invalid digit found in string");
    assert_eq!(error(&["--threads", ""]), "cannot parse integer from empty string");
    let large = format!("{}0", usize::MAX);
    assert_eq!(error(&["--threads", &large]), "number too large to fit in target type");
}

#[test]
fn a_line_is_decoded_unless_it_is_empty_or_too_long() {
    assert!(matches!(step(b""), Step::End));
    assert!(matches!(step(b"\n"), Step::Decode));
    assert!(matches!(step(&vec![b' '; MAX_REQUEST_BYTES]), Step::Decode));
    match step(&vec![b' '; MAX_REQUEST_BYTES + 1]) {
        Step::Close(response, message) => {
            assert_eq!(response.id, None);
            assert_eq!(response.error.as_deref(), Some("request exceeds 16 MiB"));
            assert!(response.results.is_empty());
            assert_eq!(message, "oversized request; worker closed");
        }
        _ => panic!("an oversized line closes the worker"),
    }
}

#[test]
fn a_line_that_is_no_request_is_answered_without_an_id() {
    let mut extractor = Extractor::new(1).unwrap();
    let response = respond(&mut extractor, Err("expected value".to_string()));
    assert_eq!(response.id, None);
    assert_eq!(response.error.as_deref(), Some("invalid request: expected value"));
    assert_eq!(invalid_request("").error.as_deref(), Some("invalid request: "));
    let files = vec![InputFile { path: "a".into(), source: "int a() {}".into() }];
    let response = respond(&mut extractor, Ok(Request { id: 12, files }));
    assert_eq!(response.id, Some(12));
    assert!(response.error.is_none());
    assert_eq!(response.results[0].extraction.as_ref().unwrap().units[0].name, "a");
}
