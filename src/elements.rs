use vstd::prelude::*;

use crate::text::{
    dots_to_slashes, find_last_dot, is_upper_case, last_dot, lemma_last_dot_bounds,
    replace_dots, same_text, starts_with, upper_case,
};

verus! {

/// Kind of a source element.
#[derive(Debug, Clone, Copy, PartialEq, Eq, Hash, Structural)]
pub enum SourceElementType {
    Module,
    Class,
    FunctionLike,
}

/// Identity of one unit of source code: a module, a class or a function.
#[derive(Debug, Clone, PartialEq, Eq, Hash)]
pub struct SourceElement {
    pub original_file_path: String,
    pub original_element_path: String,
    pub normalized_full_path: String,
    pub element_type: SourceElementType,
}

/// Mathematical model of a [`SourceElement`].
pub struct SourceElementView {
    pub file: Seq<char>,
    pub element: Seq<char>,
    pub full: Seq<char>,
    pub kind: SourceElementType,
}

impl View for SourceElement {
    type V = SourceElementView;

    open spec fn view(&self) -> SourceElementView {
        SourceElementView {
            file: self.original_file_path@,
            element: self.original_element_path@,
            full: self.normalized_full_path@,
            kind: self.element_type,
        }
    }
}

/// Identity of one test invocation.
#[derive(Debug, Clone, PartialEq, Eq, Hash)]
pub struct TestElement {
    /// Dotted form, as a coverage collector records it: `tests.test_main.test_x`.
    pub original_full_path: String,
    /// Pytest form: `tests/test_main.py::test_x`.
    pub normalized_full_path: String,
}

/// Mathematical model of a [`TestElement`].
pub struct TestElementView {
    pub original: Seq<char>,
    pub normalized: Seq<char>,
}

impl View for TestElement {
    type V = TestElementView;

    open spec fn view(&self) -> TestElementView {
        TestElementView {
            original: self.original_full_path@,
            normalized: self.normalized_full_path@,
        }
    }
}

/// Why a line is attributed to a test, or that it ran under no test.
#[derive(Debug, Clone, PartialEq, Eq, Hash)]
pub enum CoverageMarks {
    /// The line ran under an empty context.
    Uncovered,
    /// Reached from a test inside the test directory.
    ExplicitlyCoveredBy(TestElement),
    /// Reached from elsewhere.
    ImplicitlyCoveredBy(TestElement),
}

/// Mathematical model of [`CoverageMarks`].
pub enum MarkView {
    Uncovered,
    Explicit(TestElementView),
    Implicit(TestElementView),
}

impl View for CoverageMarks {
    type V = MarkView;

    open spec fn view(&self) -> MarkView {
        match self {
            CoverageMarks::Uncovered => MarkView::Uncovered,
            CoverageMarks::ExplicitlyCoveredBy(t) => MarkView::Explicit(t@),
            CoverageMarks::ImplicitlyCoveredBy(t) => MarkView::Implicit(t@),
        }
    }
}

/// `"<file>::<element>"`, with `__module__` for an empty element path.
pub open spec fn normalized_source_path(file: Seq<char>, element: Seq<char>) -> Seq<char> {
    file + "::"@ + if element.len() == 0 {
        "__module__"@
    } else {
        element
    }
}

/// Kind of an element path whose last dotted segment starts upper-case or not
/// as `last_segment_upper` says: an empty last segment is a module.
pub open spec fn element_type_given(element: Seq<char>, last_segment_upper: bool) -> SourceElementType {
    if last_dot(element) + 1 >= element.len() {
        SourceElementType::Module
    } else if last_segment_upper {
        SourceElementType::Class
    } else {
        SourceElementType::FunctionLike
    }
}

/// Kind guessed from the first character of the last dotted segment.
pub open spec fn element_type_of(element: Seq<char>) -> SourceElementType {
    let k = last_dot(element);
    if k + 1 >= element.len() {
        SourceElementType::Module
    } else {
        element_type_given(element, upper_case(element[k + 1]))
    }
}

/// Pytest form of a dotted test path: the last segment is the test, the others
/// are joined by `/` into a file name with `.py`. A path without a dot stays.
pub open spec fn normalized_test_path(s: Seq<char>) -> Seq<char> {
    let k = last_dot(s);
    if k < 0 {
        s
    } else {
        dots_to_slashes(s.subrange(0, k)) + ".py::"@ + s.subrange(k + 1, s.len() as int)
    }
}

pub open spec fn test_view_of(raw: Seq<char>) -> TestElementView {
    TestElementView { original: raw, normalized: normalized_test_path(raw) }
}

/// The mark of a raw test identifier, given the test directory prefix.
pub open spec fn mark_of(raw: Seq<char>, test_dir: Seq<char>) -> MarkView {
    if raw.len() == 0 {
        MarkView::Uncovered
    } else if test_dir.is_prefix_of(raw) {
        MarkView::Explicit(test_view_of(raw))
    } else {
        MarkView::Implicit(test_view_of(raw))
    }
}

/// The source element built from a raw file path, element path and kind.
pub open spec fn source_view_of(
    file: Seq<char>,
    element: Seq<char>,
    kind: SourceElementType,
) -> SourceElementView {
    SourceElementView {
        file,
        element,
        full: normalized_source_path(file, element),
        kind,
    }
}

/// Whether an element path `inner` lies within `outer`: `outer` is empty (the
/// module), or `inner` starts with `outer` followed by nothing, by `.` or by
/// `::`.
pub open spec fn element_within(outer: Seq<char>, inner: Seq<char>) -> bool {
    let m = outer.len() as int;
    outer.len() == 0 || (outer.is_prefix_of(inner) && (inner.len() == m || inner[m] == '.'
        || (inner.len() >= m + 2 && inner[m] == ':' && inner[m + 1] == ':')))
}

/// Whether element `a` encloses element `d`: same file, and `d`'s path lies
/// within `a`'s.
pub open spec fn encloses(a: SourceElementView, d: SourceElementView) -> bool {
    a.file == d.file && element_within(a.element, d.element)
}

impl SourceElement {
    pub fn from_parts(
        raw_file_path: &str,
        raw_element_path: &str,
        element_type_override: Option<SourceElementType>,
    ) -> (r: Self)
        ensures
            r@ == source_view_of(
                raw_file_path@,
                raw_element_path@,
                match element_type_override {
                    Some(t) => t,
                    None => element_type_of(raw_element_path@),
                },
            ),
    {
        let element_type = match element_type_override {
            Some(t) => t,
            None => Self::element_type_from(raw_element_path),
        };
        SourceElement {
            original_file_path: raw_file_path.to_owned(),
            original_element_path: raw_element_path.to_owned(),
            normalized_full_path: Self::normalized_from(raw_file_path, raw_element_path),
            element_type,
        }
    }

    pub fn normalized_from(raw_file_path: &str, raw_element_path: &str) -> (r: String)
        ensures
            r@ == normalized_source_path(raw_file_path@, raw_element_path@),
    {
        let mut r = raw_file_path.to_owned();
        r.append("::");
        if raw_element_path.unicode_len() == 0 {
            r.append("__module__");
        } else {
            r.append(raw_element_path);
        }
        r
    }

    /// Kind guessed from naming: a last segment that starts upper-case names a
    /// class. A function named that way is taken for a class too.
    pub fn element_type_from(raw_element_path: &str) -> (r: SourceElementType)
        ensures
            r == element_type_of(raw_element_path@),
    {
        let n = raw_element_path.unicode_len();
        proof {
            lemma_last_dot_bounds(raw_element_path@);
        }
        let start: usize = match find_last_dot(raw_element_path) {
            Some(k) => k + 1,
            None => 0,
        };
        let upper = if start < n {
            is_upper_case(raw_element_path.get_char(start))
        } else {
            false
        };
        Self::element_type_with_case(raw_element_path, upper)
    }

    /// Kind of an element path, given whether its last dotted segment starts
    /// upper-case: an empty last segment is a module, else upper-case is a
    /// class and anything else a function.
    pub fn element_type_with_case(raw_element_path: &str, last_segment_upper: bool) -> (r: SourceElementType)
        ensures
            r == element_type_given(raw_element_path@, last_segment_upper),
    {
        let n = raw_element_path.unicode_len();
        proof {
            lemma_last_dot_bounds(raw_element_path@);
        }
        let start: usize = match find_last_dot(raw_element_path) {
            Some(k) => k + 1,
            None => 0,
        };
        if start >= n {
            SourceElementType::Module
        } else if last_segment_upper {
            SourceElementType::Class
        } else {
            SourceElementType::FunctionLike
        }
    }

    /// Whether `self` encloses `other`.
    pub fn does_match_at_start_of(&self, other: &SourceElement) -> (r: bool)
        ensures
            r == encloses(self@, other@),
    {
        if !same_text(&self.original_file_path, &other.original_file_path) {
            return false;
        }
        let outer = self.original_element_path.as_str();
        let inner = other.original_element_path.as_str();
        let m = outer.unicode_len();
        if m == 0 {
            return true;
        }
        if !starts_with(inner, outer) {
            return false;
        }
        let n = inner.unicode_len();
        if n == m {
            return true;
        }
        let c = inner.get_char(m);
        if c == '.' {
            return true;
        }
        c == ':' && m + 1 < n && inner.get_char(m + 1) == ':'
    }

    /// A copy with the same contents.
    pub fn duplicate(&self) -> (r: Self)
        ensures
            r@ == self@,
    {
        SourceElement {
            original_file_path: self.original_file_path.clone(),
            original_element_path: self.original_element_path.clone(),
            normalized_full_path: self.normalized_full_path.clone(),
            element_type: self.element_type,
        }
    }
}

impl TestElement {
    pub fn from_parts(raw_test_path: &str) -> (r: Self)
        ensures
            r@ == test_view_of(raw_test_path@),
    {
        TestElement {
            original_full_path: raw_test_path.to_owned(),
            normalized_full_path: Self::normalize_path_from(raw_test_path),
        }
    }

    /// `tests.test_main.test_x` becomes `tests/test_main.py::test_x`.
    pub fn normalize_path_from(coverage_py_formatted: &str) -> (r: String)
        ensures
            r@ == normalized_test_path(coverage_py_formatted@),
    {
        let s = coverage_py_formatted;
        let n = s.unicode_len();
        proof {
            lemma_last_dot_bounds(s@);
        }
        match find_last_dot(s) {
            None => s.to_owned(),
            Some(k) => {
                let mut r = replace_dots(s.substring_char(0, k));
                r.append(".py::");
                r.append(s.substring_char(k + 1, n));
                r
            },
        }
    }

    /// A copy with the same contents.
    pub fn duplicate(&self) -> (r: Self)
        ensures
            r@ == self@,
    {
        TestElement {
            original_full_path: self.original_full_path.clone(),
            normalized_full_path: self.normalized_full_path.clone(),
        }
    }

    /// Whether both hold the same paths.
    pub fn same_as(&self, other: &TestElement) -> (r: bool)
        ensures
            r == (self@ == other@),
    {
        same_text(&self.original_full_path, &other.original_full_path) && same_text(
            &self.normalized_full_path,
            &other.normalized_full_path,
        )
    }
}

impl CoverageMarks {
    /// The mark of a raw test identifier: empty is uncovered, one that starts
    /// with `test_dir` is explicit, any other implicit.
    pub fn from_raw(raw_test_path: &str, test_dir: &str) -> (r: Self)
        ensures
            r@ == mark_of(raw_test_path@, test_dir@),
    {
        if raw_test_path.unicode_len() == 0 {
            CoverageMarks::Uncovered
        } else {
            let test = TestElement::from_parts(raw_test_path);
            if starts_with(raw_test_path, test_dir) {
                CoverageMarks::ExplicitlyCoveredBy(test)
            } else {
                CoverageMarks::ImplicitlyCoveredBy(test)
            }
        }
    }

    /// Whether both marks are the same.
    pub fn same_as(&self, other: &CoverageMarks) -> (r: bool)
        ensures
            r == (self@ == other@),
    {
        match (self, other) {
            (CoverageMarks::Uncovered, CoverageMarks::Uncovered) => true,
            (CoverageMarks::ExplicitlyCoveredBy(a), CoverageMarks::ExplicitlyCoveredBy(b)) => a.same_as(b),
            (CoverageMarks::ImplicitlyCoveredBy(a), CoverageMarks::ImplicitlyCoveredBy(b)) => a.same_as(b),
            _ => false,
        }
    }

    /// A copy with the same contents.
    pub fn duplicate(&self) -> (r: Self)
        ensures
            r@ == self@,
    {
        match self {
            CoverageMarks::Uncovered => CoverageMarks::Uncovered,
            CoverageMarks::ExplicitlyCoveredBy(t) => CoverageMarks::ExplicitlyCoveredBy(t.duplicate()),
            CoverageMarks::ImplicitlyCoveredBy(t) => CoverageMarks::ImplicitlyCoveredBy(t.duplicate()),
        }
    }
}

} // verus!
