use fingertips::index::InMemoryIndex;
use fingertips::index::Posting;
use fingertips::pipeline::ArgListing;
use fingertips::pipeline::DirEntryInfo;
use fingertips::pipeline::FileMerge;
use fingertips::pipeline::IndexError;
use fingertips::pipeline::Message;
use fingertips::pipeline::PathInfo;
use fingertips::pipeline::TmpDir;
use fingertips::pipeline::expand_filename_arguments;
use fingertips::pipeline::make_merge_index_file;
use fingertips::pipeline::make_single_file_index;
use fingertips::pipeline::run;
use fingertips::pipeline::run_single_threaded;

fn docs_ab() -> Vec<Result<Vec<u8>, IndexError>> {
    vec![Ok(b"the cat sat".to_vec()), Ok(b"the dog sat".to_vec())]
}

fn postings(ix: &InMemoryIndex, term: &str) -> Vec<Posting> {
    ix.postings_for(&term.as_bytes().to_vec())
}

fn p(doc: usize, pos: usize) -> Posting {
    Posting { doc, pos }
}

fn check_scenario_a_content(ix: &InMemoryIndex) {
    assert_eq!(postings(ix, "the"), vec![p(0, 0), p(1, 0)]);
    assert_eq!(postings(ix, "sat"), vec![p(0, 2), p(1, 2)]);
    assert_eq!(postings(ix, "cat"), vec![p(0, 1)]);
    assert_eq!(postings(ix, "dog"), vec![p(1, 1)]);
    assert_eq!(postings(ix, "bird"), Vec::new());
}

#[test]
fn scenario_a_no_spill() {
    // Threshold so high no spill ever occurs.
    let single = run_single_threaded(docs_ab(), ".".to_string(), usize::MAX).unwrap();
    check_scenario_a_content(&single);
    let (piped, errors) = run(docs_ab(), false, ".".to_string(), usize::MAX);
    let piped = piped.unwrap();
    check_scenario_a_content(&piped);
    assert!(errors.is_empty());
}

#[test]
fn scenario_b_spill_after_every_document() {
    // Threshold 1 forces a spill after every single document; the merged
    // result is identical to the no-spill run.
    let (piped, errors) = run(docs_ab(), false, ".".to_string(), 1);
    let piped = piped.unwrap();
    check_scenario_a_content(&piped);
    assert!(errors.is_empty());
    let single = run_single_threaded(docs_ab(), ".".to_string(), 1).unwrap();
    check_scenario_a_content(&single);
}

#[test]
fn scenario_c_unreadable_path_is_logged_and_skipped() {
    let docs: Vec<Result<Vec<u8>, IndexError>> = vec![
        Ok(b"the cat sat".to_vec()),
        Err(IndexError::ReadFailed("gone.txt".to_string())),
        Ok(b"the dog sat".to_vec()),
    ];
    let (piped, errors) = run(docs, false, ".".to_string(), usize::MAX);
    let ix = piped.unwrap();
    // The run completes, the failure is logged once, the remaining documents
    // are indexed normally under the ids of the successful reads.
    assert_eq!(errors.len(), 1);
    assert!(matches!(&errors[0], IndexError::ReadFailed(path) if path == "gone.txt"));
    assert_eq!(postings(&ix, "the"), vec![p(0, 0), p(1, 0)]);
    assert_eq!(postings(&ix, "cat"), vec![p(0, 1)]);
    assert_eq!(postings(&ix, "dog"), vec![p(1, 1)]);
    assert_eq!(postings(&ix, "gone.txt"), Vec::new());
}

#[test]
fn single_threaded_aborts_on_first_read_failure() {
    let docs: Vec<Result<Vec<u8>, IndexError>> = vec![
        Ok(b"the cat sat".to_vec()),
        Err(IndexError::ReadFailed("gone.txt".to_string())),
    ];
    let result = run_single_threaded(docs, ".".to_string(), usize::MAX);
    assert!(matches!(result, Err(IndexError::ReadFailed(path)) if path == "gone.txt"));
}

#[test]
fn index_tokenizer_counts_repeated_words() {
    let ix = InMemoryIndex::from_single_document(7, b"  to be   or to be ".to_vec());
    assert_eq!(postings(&ix, "to"), vec![p(7, 0), p(7, 3)]);
    assert_eq!(postings(&ix, "be"), vec![p(7, 1), p(7, 4)]);
    assert_eq!(postings(&ix, "or"), vec![p(7, 2)]);
}

#[test]
fn index_merge_concatenates_shared_terms() {
    let mut a = InMemoryIndex::from_single_document(0, b"cat".to_vec());
    let b = InMemoryIndex::from_single_document(1, b"cat dog".to_vec());
    a.merge(b);
    assert_eq!(postings(&a, "cat"), vec![p(0, 0), p(1, 0)]);
    assert_eq!(postings(&a, "dog"), vec![p(1, 1)]);
    assert!(!a.is_empty());
    assert!(InMemoryIndex::new().is_empty());
    assert!(a.is_large(3));
    assert!(!a.is_large(4));
}

#[test]
fn entry_terms_lists_every_recorded_term() {
    let ix = InMemoryIndex::from_single_document(0, b"the cat sat".to_vec());
    let mut terms = ix.entry_terms();
    terms.sort();
    assert_eq!(terms, vec![b"cat".to_vec(), b"sat".to_vec(), b"the".to_vec()]);
}

#[test]
fn wrong_message_reaching_index_stage_is_reported() {
    let r = make_single_file_index(0, Message::FilePath(3));
    assert!(matches!(r, Err(IndexError::WrongMessage)));
    let ok = make_single_file_index(0, Message::Text(b"cat".to_vec()));
    assert_eq!(postings(&ok.unwrap(), "cat"), vec![p(0, 0)]);
}

#[test]
fn wrong_message_reaching_merge_stage_is_reported() {
    let out = ".".to_string();
    let mut tmp_dir = TmpDir::new(&out);
    let merge = FileMerge::new(&out);
    let r = make_merge_index_file(Ok(merge), Message::Text(b"cat".to_vec()), &mut tmp_dir);
    assert!(matches!(r, Err(IndexError::WrongMessage)));
}

#[test]
fn unknown_segment_handle_is_reported() {
    let out = ".".to_string();
    let mut tmp_dir = TmpDir::new(&out);
    let merge = FileMerge::new(&out);
    let r = make_merge_index_file(Ok(merge), Message::FilePath(5), &mut tmp_dir);
    assert!(matches!(r, Err(IndexError::MissingSegment(5))));
}

#[test]
fn expand_keeps_files_and_child_files_of_directories() {
    let args = vec![
        ArgListing { path: "notes.txt".to_string(), info: PathInfo::File },
        ArgListing {
            path: "corpus".to_string(),
            info: PathInfo::Dir(vec![
                DirEntryInfo { path: "corpus/a.txt".to_string(), is_file: true },
                DirEntryInfo { path: "corpus/sub".to_string(), is_file: false },
                DirEntryInfo { path: "corpus/b.txt".to_string(), is_file: true },
            ]),
        },
    ];
    let files = expand_filename_arguments(args).unwrap();
    assert_eq!(files, vec!["notes.txt", "corpus/a.txt", "corpus/b.txt"]);
}

#[test]
fn expand_rejects_a_missing_path() {
    let args = vec![
        ArgListing { path: "notes.txt".to_string(), info: PathInfo::File },
        ArgListing { path: "nowhere".to_string(), info: PathInfo::Missing },
        ArgListing { path: "later".to_string(), info: PathInfo::Missing },
    ];
    let r = expand_filename_arguments(args);
    assert!(matches!(r, Err(IndexError::MissingPath(path)) if path == "nowhere"));
}

#[test]
fn single_threaded_mode_of_run_reports_no_side_channel_errors() {
    let (result, errors) = run(docs_ab(), true, ".".to_string(), 1);
    check_scenario_a_content(&result.unwrap());
    assert!(errors.is_empty());
}
