use attribution_engine::engine::RawLineContexts;
use attribution_engine::report::{CoverageParser, FileContexts, Meta, NamedContexts, ParseError};

fn meta(show_contexts: bool) -> Meta {
    Meta {
        format: 3,
        version: "7.4.0".to_string(),
        timestamp: "2024-01-01T00:00:00".to_string(),
        branch_coverage: false,
        show_contexts,
    }
}

#[test]
fn disabled_contexts_are_rejected() {
    let contexts = vec!["tests.test_a.test_b".to_string()];
    assert_eq!(CoverageParser::validate_report(&meta(false), &contexts), Err(ParseError::ContextDisabled));
}

#[test]
fn contexts_without_tests_are_rejected() {
    let contexts = vec!["".to_string(), "run".to_string()];
    assert_eq!(CoverageParser::validate_report(&meta(true), &contexts), Err(ParseError::WrongContextFormat));
    assert_eq!(CoverageParser::validate_report(&meta(true), &vec![]), Err(ParseError::WrongContextFormat));
}

#[test]
fn test_contexts_are_accepted() {
    let contexts = vec!["".to_string(), "tests.test_a.test_b".to_string()];
    assert_eq!(CoverageParser::validate_report(&meta(true), &contexts), Ok(()));
    assert_eq!(CoverageParser::validate_contexts(true, &contexts, "tests"), Ok(()));
    assert_eq!(
        CoverageParser::validate_contexts(true, &contexts, "spec"),
        Err(ParseError::WrongContextFormat)
    );
}

#[test]
fn report_tree_is_flattened() {
    let line = |l: &str, t: &str| RawLineContexts { line: l.to_string(), tests: vec![t.to_string()] };
    let files = vec![
        FileContexts {
            file_path: "a.py".to_string(),
            contexts: vec![line("1", "t1")],
            classes: vec![NamedContexts { name: "Foo".to_string(), contexts: vec![line("2", "t2")] }],
            functions: vec![
                NamedContexts { name: "Foo.bar".to_string(), contexts: vec![line("3", "t3")] },
                NamedContexts { name: "helper".to_string(), contexts: vec![] },
            ],
        },
        FileContexts { file_path: "b.py".to_string(), contexts: vec![], classes: vec![], functions: vec![] },
    ];
    let (modules, classes, funcs) = CoverageParser::report_source_elements_from(&files);
    assert_eq!(modules.len(), 2);
    assert_eq!(modules[0].file_path, "a.py");
    assert_eq!(modules[0].element_path, "");
    assert_eq!(modules[0].contexts[0].line, "1");
    assert_eq!(modules[0].contexts[0].tests, vec!["t1".to_string()]);
    assert_eq!(modules[1].file_path, "b.py");
    assert_eq!(classes.len(), 1);
    assert_eq!(classes[0].element_path, "Foo");
    assert_eq!(classes[0].contexts[0].tests, vec!["t2".to_string()]);
    assert_eq!(funcs.len(), 2);
    assert_eq!(funcs[0].element_path, "Foo.bar");
    assert_eq!(funcs[1].element_path, "helper");
    assert_eq!(funcs[1].file_path, "a.py");
}
