use attribution_engine::elements::{CoverageMarks, SourceElement, SourceElementType, TestElement};
use attribution_engine::engine::{AttributionEngine, ElementCoverage, RawElementContexts, RawLineContexts, TestLines};

fn raw(file: &str, element: &str, lines: &[(&str, &[&str])]) -> RawElementContexts {
    RawElementContexts {
        file_path: file.to_string(),
        element_path: element.to_string(),
        contexts: lines
            .iter()
            .map(|(line, tests)| RawLineContexts {
                line: line.to_string(),
                tests: tests.iter().map(|t| t.to_string()).collect(),
            })
            .collect(),
    }
}

fn mark_name(mark: &CoverageMarks) -> String {
    match mark {
        CoverageMarks::Uncovered => String::new(),
        CoverageMarks::ExplicitlyCoveredBy(t) | CoverageMarks::ImplicitlyCoveredBy(t) => t.original_full_path.clone(),
    }
}

fn element<'a>(m: &'a [ElementCoverage], full: &str) -> &'a ElementCoverage {
    m.iter().find(|e| e.source.normalized_full_path == full).expect("element present")
}

fn lines_of(e: &ElementCoverage, test: &str) -> Option<Vec<u32>> {
    e.coverage.iter().find(|t| mark_name(&t.mark) == test).map(|t| t.lines.clone())
}

fn sample_engine() -> AttributionEngine {
    AttributionEngine::new(
        vec![raw("file.py", "", &[("5", &["t1"])])],
        vec![raw("file.py", "Foo", &[("10", &["t2"])])],
        vec![raw("file.py", "Foo.bar", &[("12", &["t2", "t3"])])],
        "tests",
    )
}

#[test]
fn test_normalize_path() {
    assert_eq!(
        TestElement::normalize_path_from("tests.test_main.test_analytics_processing"),
        "tests/test_main.py::test_analytics_processing"
    );
    assert_eq!(TestElement::normalize_path_from("standalone_test"), "standalone_test");
    assert_eq!(TestElement::normalize_path_from(""), "");
    assert_eq!(TestElement::normalize_path_from("tests.test_helper"), "tests.py::test_helper");
}

#[test]
fn classification_examples() {
    assert_eq!(SourceElement::element_type_from(""), SourceElementType::Module);
    assert_eq!(SourceElement::element_type_from("Foo"), SourceElementType::Class);
    assert_eq!(SourceElement::element_type_from("Foo.bar"), SourceElementType::FunctionLike);
    assert_eq!(SourceElement::element_type_from("helper_fn"), SourceElementType::FunctionLike);
    assert_eq!(SourceElement::element_type_from("outer.Inner"), SourceElementType::Class);
    assert_eq!(SourceElement::element_type_from("Foo."), SourceElementType::Module);
}

#[test]
fn override_takes_precedence() {
    let e = SourceElement::from_parts("a.py", "Foo", Some(SourceElementType::FunctionLike));
    assert_eq!(e.element_type, SourceElementType::FunctionLike);
    let g = SourceElement::from_parts("a.py", "Foo", None);
    assert_eq!(g.element_type, SourceElementType::Class);
}

#[test]
fn source_paths_are_normalized() {
    assert_eq!(SourceElement::normalized_from("file.py", ""), "file.py::__module__");
    assert_eq!(SourceElement::normalized_from("file.py", "Foo.bar"), "file.py::Foo.bar");
    let e = SourceElement::from_parts("file.py", "", Some(SourceElementType::Module));
    assert_eq!(e.normalized_full_path, "file.py::__module__");
    assert_eq!(e.original_file_path, "file.py");
    assert_eq!(e.original_element_path, "");
}

#[test]
fn test_element_from_parts() {
    let t = TestElement::from_parts("tests.test_a.test_b");
    assert_eq!(t.original_full_path, "tests.test_a.test_b");
    assert_eq!(t.normalized_full_path, "tests/test_a.py::test_b");
}

#[test]
fn marks_are_classified() {
    assert_eq!(CoverageMarks::from_raw("", "tests"), CoverageMarks::Uncovered);
    assert_eq!(
        CoverageMarks::from_raw("tests.test_a.test_b", "tests"),
        CoverageMarks::ExplicitlyCoveredBy(TestElement::from_parts("tests.test_a.test_b"))
    );
    assert_eq!(
        CoverageMarks::from_raw("helpers.run", "tests"),
        CoverageMarks::ImplicitlyCoveredBy(TestElement::from_parts("helpers.run"))
    );
}

#[test]
fn end_to_end_scenario() {
    let engine = sample_engine();
    let m = &engine.full_accumulated_attribution;
    assert_eq!(m.len(), 3);
    let class = element(m, "file.py::Foo");
    assert_eq!(lines_of(class, "t2"), Some(vec![10, 12]));
    assert_eq!(lines_of(class, "t3"), Some(vec![12]));
    assert_eq!(lines_of(class, "t1"), None);
    assert_eq!(class.coverage.len(), 2);
    let module = element(m, "file.py::__module__");
    assert_eq!(lines_of(module, "t1"), Some(vec![5]));
    assert_eq!(lines_of(module, "t2"), Some(vec![10, 12]));
    assert_eq!(lines_of(module, "t3"), Some(vec![12]));
    assert_eq!(module.coverage.len(), 3);
    let func = element(m, "file.py::Foo.bar");
    assert_eq!(lines_of(func, "t2"), Some(vec![12]));
    assert_eq!(lines_of(func, "t3"), Some(vec![12]));
    assert_eq!(lines_of(func, "t1"), None);
    assert_eq!(func.coverage.len(), 2);
    assert_eq!(module.source.element_type, SourceElementType::Module);
    assert_eq!(class.source.element_type, SourceElementType::Class);
    assert_eq!(func.source.element_type, SourceElementType::FunctionLike);
}

#[test]
fn output_lines_are_strictly_ascending() {
    let engine = AttributionEngine::new(
        vec![raw("f.py", "", &[("9", &["t"]), ("3", &["t"]), ("9", &["t"])])],
        vec![raw("f.py", "A", &[("7", &["t"]), ("3", &["t"])])],
        vec![raw("f.py", "A.g", &[("8", &["t"]), ("7", &["t"])])],
        "tests",
    );
    let m = &engine.full_accumulated_attribution;
    assert_eq!(lines_of(element(m, "f.py::__module__"), "t"), Some(vec![3, 7, 8, 9]));
    assert_eq!(lines_of(element(m, "f.py::A"), "t"), Some(vec![3, 7, 8]));
    assert_eq!(lines_of(element(m, "f.py::A.g"), "t"), Some(vec![7, 8]));
    for e in m {
        for t in &e.coverage {
            assert!(t.lines.windows(2).all(|w| w[0] < w[1]));
        }
    }
}

#[test]
fn dedup_twice_equals_once() {
    let mut m = AttributionEngine::construct_attribution_mapping_from(
        &vec![raw("f.py", "", &[("4", &["t", "u"]), ("2", &["t"]), ("4", &["t"])])],
        Some(SourceElementType::Module),
        "tests",
    );
    AttributionEngine::dedup(&mut m);
    let once: Vec<Vec<u32>> = m[0].coverage.iter().map(|t| t.lines.clone()).collect();
    AttributionEngine::dedup(&mut m);
    let twice: Vec<Vec<u32>> = m[0].coverage.iter().map(|t| t.lines.clone()).collect();
    assert_eq!(once, twice);
    assert_eq!(lines_of(&m[0], "t"), Some(vec![2, 4]));
    assert_eq!(lines_of(&m[0], "u"), Some(vec![4]));
}

#[test]
fn no_cross_file_leakage() {
    let engine = AttributionEngine::new(
        vec![raw("a.py", "", &[("1", &["ta"])]), raw("b.py", "", &[("1", &["tb"])])],
        vec![raw("a.py", "Foo", &[("2", &["ta"])]), raw("b.py", "Foo", &[("5", &["tb"])])],
        vec![raw("a.py", "Foo.bar", &[("3", &["ta"])])],
        "tests",
    );
    let m = &engine.full_accumulated_attribution;
    let b_class = element(m, "b.py::Foo");
    assert_eq!(lines_of(b_class, "ta"), None);
    assert_eq!(lines_of(b_class, "tb"), Some(vec![5]));
    let b_module = element(m, "b.py::__module__");
    assert_eq!(lines_of(b_module, "ta"), None);
    assert_eq!(lines_of(b_module, "tb"), Some(vec![1, 5]));
    let a_module = element(m, "a.py::__module__");
    assert_eq!(lines_of(a_module, "ta"), Some(vec![1, 2, 3]));
}

#[test]
fn sibling_with_common_prefix_is_not_enclosed() {
    let engine = AttributionEngine::new(
        vec![],
        vec![raw("a.py", "Foo", &[("2", &["t"])])],
        vec![raw("a.py", "FooBar.baz", &[("9", &["t"])]), raw("a.py", "Foo.baz", &[("4", &["t"])])],
        "tests",
    );
    let m = &engine.full_accumulated_attribution;
    assert_eq!(lines_of(element(m, "a.py::Foo"), "t"), Some(vec![2, 4]));
}

#[test]
fn malformed_line_keys_are_skipped() {
    let m = AttributionEngine::construct_attribution_mapping_from(
        &vec![raw("f.py", "g", &[("", &["t"]), ("x1", &["t"]), ("+6", &["t"]), ("4294967296", &["t"]), ("11", &["t"])])],
        Some(SourceElementType::FunctionLike),
        "tests",
    );
    assert_eq!(m.len(), 1);
    assert_eq!(lines_of(&m[0], "t"), Some(vec![6, 11]));
}

#[test]
fn uncovered_and_implicit_marks_in_output() {
    let m = AttributionEngine::construct_attribution_mapping_from(
        &vec![raw("f.py", "", &[("3", &["", "tests.test_x.test_y", "pkg.helper"])])],
        Some(SourceElementType::Module),
        "tests",
    );
    let cov: &Vec<TestLines> = &m[0].coverage;
    assert_eq!(cov.len(), 3);
    assert!(cov.iter().any(|t| t.mark == CoverageMarks::Uncovered && t.lines == vec![3]));
    assert!(cov.iter().any(|t| matches!(&t.mark, CoverageMarks::ExplicitlyCoveredBy(e)
        if e.normalized_full_path == "tests/test_x.py::test_y")));
    assert!(cov.iter().any(|t| matches!(&t.mark, CoverageMarks::ImplicitlyCoveredBy(e)
        if e.normalized_full_path == "pkg.py::helper")));
}

#[test]
fn accumulation_appends_without_dedup() {
    let mut acc = AttributionEngine::construct_attribution_mapping_from(
        &vec![raw("f.py", "C", &[("1", &["t"])])],
        Some(SourceElementType::Class),
        "tests",
    );
    let donor = AttributionEngine::construct_attribution_mapping_from(
        &vec![raw("f.py", "C.m", &[("1", &["t"]), ("2", &["u"])]), raw("g.py", "C.m", &[("7", &["t"])])],
        Some(SourceElementType::FunctionLike),
        "tests",
    );
    AttributionEngine::accumulate_subattribution(&mut acc, &donor);
    assert_eq!(lines_of(&acc[0], "t"), Some(vec![1, 1]));
    assert_eq!(lines_of(&acc[0], "u"), Some(vec![2]));
    assert_eq!(acc[0].source.normalized_full_path, "f.py::C");
}

#[test]
fn enclosing_checks_file_and_boundary() {
    let module = SourceElement::from_parts("a.py", "", None);
    let class = SourceElement::from_parts("a.py", "Foo", None);
    let method = SourceElement::from_parts("a.py", "Foo.bar", None);
    let nested = SourceElement::from_parts("a.py", "Foo::Inner", None);
    let other = SourceElement::from_parts("a.py", "Foobar", None);
    let elsewhere = SourceElement::from_parts("b.py", "Foo.bar", None);
    assert!(module.does_match_at_start_of(&method));
    assert!(class.does_match_at_start_of(&method));
    assert!(class.does_match_at_start_of(&nested));
    assert!(!class.does_match_at_start_of(&other));
    assert!(!class.does_match_at_start_of(&elsewhere));
    assert!(!module.does_match_at_start_of(&elsewhere));
}

#[test]
fn empty_inputs_give_empty_attribution() {
    let engine = AttributionEngine::new(vec![], vec![], vec![], "tests");
    assert!(engine.full_accumulated_attribution.is_empty());
}

#[test]
fn classification_given_case() {
    assert_eq!(SourceElement::element_type_with_case("", true), SourceElementType::Module);
    assert_eq!(SourceElement::element_type_with_case("Foo.", true), SourceElementType::Module);
    assert_eq!(SourceElement::element_type_with_case("foo.Bar", true), SourceElementType::Class);
    assert_eq!(SourceElement::element_type_with_case("Foo.bar", false), SourceElementType::FunctionLike);
    assert_eq!(SourceElement::element_type_with_case("Foo", false), SourceElementType::FunctionLike);
}

#[test]
fn empty_path_encloses_its_file_whatever_the_kind() {
    let module = SourceElement::from_parts("a.py", "", Some(SourceElementType::Module));
    let blank_class = SourceElement::from_parts("a.py", "", Some(SourceElementType::Class));
    let method = SourceElement::from_parts("a.py", "Foo.bar", Some(SourceElementType::FunctionLike));
    let elsewhere = SourceElement::from_parts("b.py", "Foo.bar", Some(SourceElementType::FunctionLike));
    assert!(module.does_match_at_start_of(&method));
    assert!(blank_class.does_match_at_start_of(&method));
    assert!(!module.does_match_at_start_of(&elsewhere));
}

#[test]
fn single_colon_does_not_nest() {
    let class = SourceElement::from_parts("a.py", "Foo", None);
    let colon = SourceElement::from_parts("a.py", "Foo:x", None);
    let trailing = SourceElement::from_parts("a.py", "Foo:", None);
    let nested = SourceElement::from_parts("a.py", "Foo::x", None);
    assert!(!class.does_match_at_start_of(&colon));
    assert!(!class.does_match_at_start_of(&trailing));
    assert!(class.does_match_at_start_of(&nested));
    let engine = AttributionEngine::new(
        vec![],
        vec![raw("a.py", "Foo", &[("2", &["t"])])],
        vec![raw("a.py", "Foo:x", &[("3", &["t"])]), raw("a.py", "Foo::y", &[("4", &["t"])])],
        "tests",
    );
    let m = &engine.full_accumulated_attribution;
    assert_eq!(lines_of(element(m, "a.py::Foo"), "t"), Some(vec![2, 4]));
}

#[test]
fn merging_no_lines_adds_no_key() {
    let cov = attribution_engine::engine::merge_lines(Vec::new(), &CoverageMarks::Uncovered, &vec![]);
    assert!(cov.is_empty());
    let cov = attribution_engine::engine::merge_lines(cov, &CoverageMarks::Uncovered, &vec![3, 1]);
    let cov = attribution_engine::engine::merge_lines(cov, &CoverageMarks::Uncovered, &vec![3]);
    assert_eq!(cov.len(), 1);
    assert_eq!(cov[0].lines, vec![3, 1, 3]);
}

#[test]
fn builder_keeps_every_occurrence_in_order() {
    let m = AttributionEngine::construct_attribution_mapping_from(
        &vec![raw("f.py", "g", &[("9", &["t", "t"]), ("bad", &["t"]), ("4", &["t", "u"])])],
        Some(SourceElementType::FunctionLike),
        "tests",
    );
    assert_eq!(lines_of(&m[0], "t"), Some(vec![9, 9, 4]));
    assert_eq!(lines_of(&m[0], "u"), Some(vec![4]));
    assert_eq!(m[0].coverage.len(), 2);
}

#[test]
fn element_without_enclosed_donor_is_unchanged() {
    let mut acc = AttributionEngine::construct_attribution_mapping_from(
        &vec![raw("b.py", "Foo", &[("5", &["t"]), ("2", &["t"])])],
        Some(SourceElementType::Class),
        "tests",
    );
    let donor = AttributionEngine::construct_attribution_mapping_from(
        &vec![raw("a.py", "Foo.bar", &[("3", &["t"])])],
        Some(SourceElementType::FunctionLike),
        "tests",
    );
    AttributionEngine::accumulate_subattribution(&mut acc, &donor);
    assert_eq!(acc[0].coverage.len(), 1);
    assert_eq!(lines_of(&acc[0], "t"), Some(vec![5, 2]));
}
