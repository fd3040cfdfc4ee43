use vstd::prelude::*;

use crate::elements::{
    element_within, encloses, mark_of, source_view_of, CoverageMarks, MarkView, SourceElement,
    SourceElementType, SourceElementView, element_type_of,
};
use crate::text::{parse_u32, parsed_u32};

verus! {

/// The test identifiers recorded for one line, the line number still as text.
#[derive(Debug)]
pub struct RawLineContexts {
    pub line: String,
    pub tests: Vec<String>,
}

/// The raw contexts of one source element, keyed by file and element path.
#[derive(Debug)]
pub struct RawElementContexts {
    pub file_path: String,
    pub element_path: String,
    pub contexts: Vec<RawLineContexts>,
}

/// The lines attributed to one test key of one element.
#[derive(Debug)]
pub struct TestLines {
    pub mark: CoverageMarks,
    pub lines: Vec<u32>,
}

/// One source element with its coverage, keyed by test.
#[derive(Debug)]
pub struct ElementCoverage {
    pub source: SourceElement,
    pub coverage: Vec<TestLines>,
}

/// The merged attribution of modules, classes and functions.
#[derive(Debug)]
pub struct AttributionEngine {
    pub full_accumulated_attribution: Vec<ElementCoverage>,
}

// ---------------------------------------------------------------------------
// Models

/// Entry `e` attributes line `l` to test key `t`.
pub open spec fn entry_has(e: TestLines, t: MarkView, l: u32) -> bool {
    e.mark@ == t && e.lines@.contains(l)
}

/// Coverage `c` attributes line `l` to test key `t`.
pub open spec fn has_line(c: Seq<TestLines>, t: MarkView, l: u32) -> bool {
    exists|j: int| 0 <= j < c.len() && #[trigger] entry_has(c[j], t, l)
}

/// The lines of every entry of `c` under key `t`, entry after entry. With
/// unique keys: the lines of the one entry of key `t`, or none.
pub open spec fn lines_of(c: Seq<TestLines>, t: MarkView) -> Seq<u32>
    decreases c.len(),
{
    if c.len() == 0 {
        Seq::empty()
    } else {
        lines_of(c.drop_last(), t) + if c.last().mark@ == t {
            c.last().lines@
        } else {
            Seq::<u32>::empty()
        }
    }
}

/// Every key holds at least one line.
pub open spec fn coverage_nonempty(c: Seq<TestLines>) -> bool {
    forall|j: int| 0 <= j < c.len() ==> (#[trigger] c[j]).lines@.len() > 0
}

pub proof fn lemma_lines_of_absent(c: Seq<TestLines>, t: MarkView)
    requires
        forall|j: int| 0 <= j < c.len() ==> (#[trigger] c[j]).mark@ != t,
    ensures
        lines_of(c, t) == Seq::<u32>::empty(),
    decreases c.len(),
{
    if c.len() > 0 {
        let d = c.drop_last();
        assert forall|j: int| 0 <= j < d.len() implies (#[trigger] d[j]).mark@ != t by {
            assert(d[j] == c[j]);
        }
        lemma_lines_of_absent(d, t);
        assert(lines_of(c, t) =~= Seq::<u32>::empty());
    }
}

pub proof fn lemma_lines_of_at(c: Seq<TestLines>, j: int, t: MarkView)
    requires
        marks_unique(c),
        0 <= j < c.len(),
        c[j].mark@ == t,
    ensures
        lines_of(c, t) == c[j].lines@,
    decreases c.len(),
{
    let d = c.drop_last();
    if j == c.len() - 1 {
        assert forall|k: int| 0 <= k < d.len() implies (#[trigger] d[k]).mark@ != t by {
            assert(d[k] == c[k]);
        }
        lemma_lines_of_absent(d, t);
        assert(lines_of(c, t) =~= c[j].lines@);
    } else {
        assert forall|a: int, b: int| 0 <= a < b < d.len() implies d[a].mark@ != d[b].mark@ by {
            assert(d[a] == c[a] && d[b] == c[b]);
        }
        assert(d[j] == c[j]);
        lemma_lines_of_at(d, j, t);
        assert(c.last().mark@ != t);
        assert(lines_of(c, t) =~= c[j].lines@);
    }
}

/// With unique keys, `lines_of` is empty exactly when no entry has key `t`
/// or that entry holds no line.
pub proof fn lemma_lines_of_cases(c: Seq<TestLines>, t: MarkView)
    requires
        marks_unique(c),
    ensures
        (exists|j: int| 0 <= j < c.len() && (#[trigger] c[j]).mark@ == t) || lines_of(c, t) == Seq::<u32>::empty(),
        forall|j: int| 0 <= j < c.len() && (#[trigger] c[j]).mark@ == t ==> lines_of(c, t) == c[j].lines@,
{
    if exists|j: int| 0 <= j < c.len() && (#[trigger] c[j]).mark@ == t {
        let j = choose|j: int| 0 <= j < c.len() && (#[trigger] c[j]).mark@ == t;
        lemma_lines_of_at(c, j, t);
    } else {
        lemma_lines_of_absent(c, t);
    }
    assert forall|j: int| 0 <= j < c.len() && (#[trigger] c[j]).mark@ == t implies lines_of(c, t) == c[j].lines@ by {
        lemma_lines_of_at(c, j, t);
    }
}

/// No test key occurs twice.
pub open spec fn marks_unique(c: Seq<TestLines>) -> bool {
    forall|j: int, k: int| 0 <= j < k < c.len() ==> c[j].mark@ != c[k].mark@
}

pub open spec fn strictly_ascending(s: Seq<u32>) -> bool {
    forall|a: int, b: int| 0 <= a < b < s.len() ==> s[a] < s[b]
}

/// Every key's lines ascend strictly.
pub open spec fn coverage_sorted(c: Seq<TestLines>) -> bool {
    forall|j: int| 0 <= j < c.len() ==> strictly_ascending(#[trigger] c[j].lines@)
}

/// Line entry `rc` parses to `l`, and its `b`-th test has mark `t`.
pub open spec fn raw_line_has(rc: RawLineContexts, b: int, test_dir: Seq<char>, t: MarkView, l: u32) -> bool {
    0 <= b < rc.tests.len() && parsed_u32(rc.line@) == Some(l) && mark_of(rc.tests@[b]@, test_dir) == t
}

/// One of the first `n` line entries of `ctx` records line `l` under a test
/// with mark `t`.
pub open spec fn raw_upto(ctx: Seq<RawLineContexts>, n: int, test_dir: Seq<char>, t: MarkView, l: u32) -> bool {
    exists|a: int, b: int| 0 <= a < n && a < ctx.len() && #[trigger] raw_line_has(ctx[a], b, test_dir, t, l)
}

/// `line` once for each test of `tests` whose mark is `t`, in order.
pub open spec fn tests_lines(tests: Seq<String>, test_dir: Seq<char>, t: MarkView, line: u32) -> Seq<u32>
    decreases tests.len(),
{
    if tests.len() == 0 {
        Seq::empty()
    } else {
        tests_lines(tests.drop_last(), test_dir, t, line) + if mark_of(tests.last()@, test_dir) == t {
            seq![line]
        } else {
            Seq::<u32>::empty()
        }
    }
}

/// The lines that line entry `rc` records under mark `t`: none when its line
/// number does not parse.
pub open spec fn entry_lines(rc: RawLineContexts, test_dir: Seq<char>, t: MarkView) -> Seq<u32> {
    match parsed_u32(rc.line@) {
        Some(line) => tests_lines(rc.tests@, test_dir, t, line),
        None => Seq::empty(),
    }
}

/// The lines that line entries `ctx` record under mark `t`, one per
/// occurrence, in input order.
pub open spec fn raw_lines(ctx: Seq<RawLineContexts>, test_dir: Seq<char>, t: MarkView) -> Seq<u32>
    decreases ctx.len(),
{
    if ctx.len() == 0 {
        Seq::empty()
    } else {
        raw_lines(ctx.drop_last(), test_dir, t) + entry_lines(ctx.last(), test_dir, t)
    }
}

/// The raw contexts `e` record line `l` under a test with mark `t`.
pub open spec fn raw_has(e: RawElementContexts, test_dir: Seq<char>, t: MarkView, l: u32) -> bool {
    raw_upto(e.contexts@, e.contexts@.len() as int, test_dir, t, l)
}

/// Both coverages hold the same keys with the same lines, in the same order.
pub open spec fn same_coverage(a: Seq<TestLines>, b: Seq<TestLines>) -> bool {
    a.len() == b.len() && forall|j: int| 0 <= j < a.len() ==> (#[trigger] a[j]).mark@ == b[j].mark@ && a[j].lines@ == b[j].lines@
}

/// The source element that raw contexts `e` stand for, with kind `kind`.
pub open spec fn raw_source(e: RawElementContexts, kind: SourceElementType) -> SourceElementView {
    source_view_of(e.file_path@, e.element_path@, kind)
}

/// The kind an override gives, or else the one guessed from the path.
pub open spec fn kind_for(element_type_override: Option<SourceElementType>, element: Seq<char>) -> SourceElementType {
    match element_type_override {
        Some(t) => t,
        None => element_type_of(element),
    }
}

/// `e` is the element built from raw contexts `raw`, before accumulation.
pub open spec fn built_element(
    raw: RawElementContexts,
    element_type_override: Option<SourceElementType>,
    test_dir: Seq<char>,
    e: ElementCoverage,
) -> bool {
    &&& e.source@ == raw_source(raw, kind_for(element_type_override, raw.element_path@))
    &&& marks_unique(e.coverage@)
    &&& coverage_nonempty(e.coverage@)
    &&& forall|t: MarkView| #[trigger] lines_of(e.coverage@, t) == raw_lines(raw.contexts@, test_dir, t)
    &&& forall|t: MarkView, l: u32| has_line(e.coverage@, t, l) <==> raw_has(raw, test_dir, t, l)
}

/// Some element of `donor` that `ancestor` encloses has line `l` under `t`.
pub open spec fn donated(ancestor: SourceElementView, donor: Seq<ElementCoverage>, t: MarkView, l: u32) -> bool {
    exists|j: int| 0 <= j < donor.len() && encloses(ancestor, donor[j].source@) && #[trigger] has_line(donor[j].coverage@, t, l)
}

/// `after` is `before` with, in each element, the lines of every element of
/// `donor` that it encloses.
pub open spec fn accumulated(before: Seq<ElementCoverage>, donor: Seq<ElementCoverage>, after: Seq<ElementCoverage>) -> bool {
    &&& after.len() == before.len()
    &&& forall|i: int| 0 <= i < after.len() ==> (#[trigger] after[i]).source@ == before[i].source@
    &&& forall|i: int, t: MarkView, l: u32| 0 <= i < after.len() ==>
        (#[trigger] has_line(after[i].coverage@, t, l) <==> (has_line(before[i].coverage@, t, l)
            || donated(before[i].source@, donor, t, l)))
    &&& forall|i: int, t: MarkView| 0 <= i < after.len() ==>
        #[trigger] lines_of(after[i].coverage@, t) == lines_of(before[i].coverage@, t) + donor_lines(before[i].source@, donor, t)
    &&& forall|i: int| 0 <= i < after.len() && (forall|j: int| 0 <= j < donor.len() ==> !encloses(before[i].source@, (#[trigger] donor[j]).source@))
        ==> same_coverage(before[i].coverage@, #[trigger] after[i].coverage@)
}

/// Every key of every element holds at least one line.
pub open spec fn mapping_nonempty(m: Seq<ElementCoverage>) -> bool {
    forall|i: int| 0 <= i < m.len() ==> coverage_nonempty(#[trigger] m[i].coverage@)
}

pub proof fn lemma_same_coverage_lines(a: Seq<TestLines>, b: Seq<TestLines>, t: MarkView)
    requires
        same_coverage(a, b),
    ensures
        lines_of(a, t) == lines_of(b, t),
        coverage_nonempty(a) == coverage_nonempty(b),
    decreases a.len(),
{
    if a.len() > 0 {
        assert(same_coverage(a.drop_last(), b.drop_last())) by {
            assert forall|j: int| 0 <= j < a.len() - 1 implies (#[trigger] a.drop_last()[j]).mark@ == b.drop_last()[j].mark@
                && a.drop_last()[j].lines@ == b.drop_last()[j].lines@ by {
                assert(a.drop_last()[j] == a[j] && b.drop_last()[j] == b[j]);
            }
        }
        lemma_same_coverage_lines(a.drop_last(), b.drop_last(), t);
        assert(a.last() == a[a.len() - 1]);
    }
    if coverage_nonempty(a) {
        assert forall|j: int| 0 <= j < b.len() implies (#[trigger] b[j]).lines@.len() > 0 by {
            assert(a[j].lines@ == b[j].lines@);
        }
    }
    if coverage_nonempty(b) {
        assert forall|j: int| 0 <= j < a.len() implies (#[trigger] a[j]).lines@.len() > 0 by {
            assert(a[j].lines@ == b[j].lines@);
        }
    }
}

/// Accumulation never reaches across files: an element none of whose donors
/// lies in its file keeps its coverage unchanged, whatever the paths hold.
pub proof fn accumulation_stays_in_file(
    before: Seq<ElementCoverage>,
    donor: Seq<ElementCoverage>,
    after: Seq<ElementCoverage>,
    i: int,
)
    requires
        accumulated(before, donor, after),
        0 <= i < before.len(),
        forall|j: int| 0 <= j < donor.len() ==> (#[trigger] donor[j]).source@.file != before[i].source@.file,
    ensures
        after[i].source@ == before[i].source@,
        same_coverage(before[i].coverage@, after[i].coverage@),
{
    assert forall|j: int| 0 <= j < donor.len() implies !encloses(before[i].source@, (#[trigger] donor[j]).source@) by {
        assert(donor[j].source@.file != before[i].source@.file);
    }
}

/// The lines under key `t` of the elements of `donor` that `ancestor`
/// encloses, donor after donor.
pub open spec fn donor_lines(ancestor: SourceElementView, donor: Seq<ElementCoverage>, t: MarkView) -> Seq<u32>
    decreases donor.len(),
{
    if donor.len() == 0 {
        Seq::empty()
    } else {
        donor_lines(ancestor, donor.drop_last(), t) + if encloses(ancestor, donor.last().source@) {
            lines_of(donor.last().coverage@, t)
        } else {
            Seq::<u32>::empty()
        }
    }
}

/// Every element of the mapping has unique keys.
pub open spec fn mapping_well_formed(m: Seq<ElementCoverage>) -> bool {
    forall|i: int| 0 <= i < m.len() ==> marks_unique(#[trigger] m[i].coverage@)
}

pub proof fn lemma_same_coverage(a: Seq<TestLines>, b: Seq<TestLines>)
    requires
        same_coverage(a, b),
    ensures
        marks_unique(a) == marks_unique(b),
        forall|t: MarkView, l: u32| has_line(a, t, l) == has_line(b, t, l),
{
    assert forall|t: MarkView, l: u32| has_line(a, t, l) == has_line(b, t, l) by {
        if has_line(a, t, l) {
            let q = choose|q: int| 0 <= q < a.len() && #[trigger] entry_has(a[q], t, l);
            assert(entry_has(b[q], t, l));
        }
        if has_line(b, t, l) {
            let q = choose|q: int| 0 <= q < b.len() && #[trigger] entry_has(b[q], t, l);
            assert(entry_has(a[q], t, l));
        }
    }
    if marks_unique(a) {
        assert forall|j: int, k: int| 0 <= j < k < b.len() implies b[j].mark@ != b[k].mark@ by {
            assert(a[j].mark@ == b[j].mark@);
            assert(a[k].mark@ == b[k].mark@);
        }
    }
    if marks_unique(b) {
        assert forall|j: int, k: int| 0 <= j < k < a.len() implies a[j].mark@ != a[k].mark@ by {
            assert(a[j].mark@ == b[j].mark@);
            assert(a[k].mark@ == b[k].mark@);
        }
    }
}

/// `after` holds the keys of `before` in the same order, each with its lines
/// made strictly ascending and otherwise unchanged as a set.
pub open spec fn coverage_deduped(before: Seq<TestLines>, after: Seq<TestLines>) -> bool {
    &&& after.len() == before.len()
    &&& forall|j: int| 0 <= j < after.len() ==> (#[trigger] after[j]).mark@ == before[j].mark@
    &&& coverage_sorted(after)
    &&& forall|j: int, y: u32| 0 <= j < after.len() ==> (#[trigger] after[j].lines@.contains(y) <==> before[j].lines@.contains(y))
}

/// `after` is `before` with every line sequence deduplicated and sorted.
pub open spec fn mapping_deduped(before: Seq<ElementCoverage>, after: Seq<ElementCoverage>) -> bool {
    &&& after.len() == before.len()
    &&& forall|i: int| 0 <= i < after.len() ==> (#[trigger] after[i]).source@ == before[i].source@
    &&& forall|i: int| 0 <= i < after.len() ==> coverage_deduped(before[i].coverage@, #[trigger] after[i].coverage@)
}

/// Both mappings hold the same elements, keys and lines, in the same order.
pub open spec fn same_mapping(a: Seq<ElementCoverage>, b: Seq<ElementCoverage>) -> bool {
    &&& a.len() == b.len()
    &&& forall|i: int| 0 <= i < a.len() ==> (#[trigger] a[i]).source@ == b[i].source@ && same_coverage(a[i].coverage@, b[i].coverage@)
}

pub proof fn lemma_deduped_keeps_lines(before: Seq<TestLines>, after: Seq<TestLines>)
    requires
        coverage_deduped(before, after),
    ensures
        marks_unique(after) == marks_unique(before),
        coverage_nonempty(after) == coverage_nonempty(before),
        forall|t: MarkView, l: u32| has_line(after, t, l) == has_line(before, t, l),
{
    assert forall|j: int| 0 <= j < after.len() implies (after[j].lines@.len() > 0 <==> before[j].lines@.len() > 0) by {
        if before[j].lines@.len() > 0 {
            assert(before[j].lines@.contains(before[j].lines@[0]));
            assert(after[j].lines@.contains(before[j].lines@[0]));
        }
        if after[j].lines@.len() > 0 {
            assert(after[j].lines@.contains(after[j].lines@[0]));
            assert(before[j].lines@.contains(after[j].lines@[0]));
        }
    }
    assert forall|t: MarkView, l: u32| has_line(after, t, l) == has_line(before, t, l) by {
        if has_line(after, t, l) {
            let q = choose|q: int| 0 <= q < after.len() && #[trigger] entry_has(after[q], t, l);
            assert(after[q].lines@.contains(l));
            assert(entry_has(before[q], t, l));
        }
        if has_line(before, t, l) {
            let q = choose|q: int| 0 <= q < before.len() && #[trigger] entry_has(before[q], t, l);
            assert(after[q].lines@.contains(l));
            assert(entry_has(after[q], t, l));
        }
    }
    if marks_unique(before) {
        assert forall|j: int, k: int| 0 <= j < k < after.len() implies after[j].mark@ != after[k].mark@ by {
            assert(after[j].mark@ == before[j].mark@);
            assert(after[k].mark@ == before[k].mark@);
        }
    }
    if marks_unique(after) {
        assert forall|j: int, k: int| 0 <= j < k < before.len() implies before[j].mark@ != before[k].mark@ by {
            assert(after[j].mark@ == before[j].mark@);
            assert(after[k].mark@ == before[k].mark@);
        }
    }
}

/// Two strictly ascending sequences with the same elements are equal.
pub proof fn lemma_ascending_unique(a: Seq<u32>, b: Seq<u32>)
    requires
        strictly_ascending(a),
        strictly_ascending(b),
        forall|y: u32| a.contains(y) <==> b.contains(y),
    ensures
        a == b,
    decreases a.len() + b.len(),
{
    if a.len() == 0 {
        if b.len() > 0 {
            assert(b.contains(b[0]));
        }
        assert(a =~= b);
    } else if b.len() == 0 {
        assert(a.contains(a[0]));
    } else {
        assert(a.contains(a[0]));
        assert(b.contains(b[0]));
        let ka = choose|k: int| 0 <= k < a.len() && a[k] == b[0];
        let kb = choose|k: int| 0 <= k < b.len() && b[k] == a[0];
        assert(a[0] == b[0]) by {
            if ka > 0 {
                assert(a[0] < a[ka]);
                if kb > 0 {
                    assert(b[0] < b[kb]);
                }
            }
            if kb > 0 {
                assert(b[0] < b[kb]);
            }
        }
        let ra = a.drop_first();
        let rb = b.drop_first();
        assert forall|y: u32| ra.contains(y) <==> rb.contains(y) by {
            if ra.contains(y) {
                let k = choose|k: int| 0 <= k < ra.len() && ra[k] == y;
                assert(a[k + 1] == y);
                assert(a.contains(y));
                let m = choose|m: int| 0 <= m < b.len() && b[m] == y;
                assert(a[0] < a[k + 1]);
                if m == 0 {
                    assert(false);
                }
                assert(rb[m - 1] == y);
            }
            if rb.contains(y) {
                let k = choose|k: int| 0 <= k < rb.len() && rb[k] == y;
                assert(b[k + 1] == y);
                assert(b.contains(y));
                let m = choose|m: int| 0 <= m < a.len() && a[m] == y;
                assert(b[0] < b[k + 1]);
                if m == 0 {
                    assert(false);
                }
                assert(ra[m - 1] == y);
            }
        }
        assert forall|x: int, z: int| 0 <= x < z < ra.len() implies ra[x] < ra[z] by {
            assert(a[x + 1] < a[z + 1]);
        }
        assert forall|x: int, z: int| 0 <= x < z < rb.len() implies rb[x] < rb[z] by {
            assert(b[x + 1] < b[z + 1]);
        }
        lemma_ascending_unique(ra, rb);
        assert(a =~= b) by {
            assert forall|k: int| 0 <= k < a.len() implies a[k] == b[k] by {
                if k > 0 {
                    assert(ra[k - 1] == rb[k - 1]);
                }
            }
        }
    }
}

/// Deduplicating a mapping a second time changes nothing: whatever mapping
/// `once` is deduplicated from, `twice` deduplicated from `once` equals it.
pub proof fn dedup_idempotent(start: Seq<ElementCoverage>, once: Seq<ElementCoverage>, twice: Seq<ElementCoverage>)
    requires
        mapping_deduped(start, once),
        mapping_deduped(once, twice),
    ensures
        same_mapping(once, twice),
{
    assert forall|i: int| 0 <= i < once.len() implies (#[trigger] once[i]).source@ == twice[i].source@
        && same_coverage(once[i].coverage@, twice[i].coverage@) by {
        assert(twice[i].source@ == once[i].source@);
        let c1 = once[i].coverage@;
        let c2 = twice[i].coverage@;
        assert(coverage_deduped(start[i].coverage@, c1));
        assert(coverage_deduped(c1, c2));
        assert forall|j: int| 0 <= j < c1.len() implies (#[trigger] c1[j]).mark@ == c2[j].mark@ && c1[j].lines@ == c2[j].lines@ by {
            assert(c2[j].mark@ == c1[j].mark@);
            assert(strictly_ascending(c1[j].lines@));
            assert(strictly_ascending(c2[j].lines@));
            assert forall|y: u32| c1[j].lines@.contains(y) <==> c2[j].lines@.contains(y) by {
                assert(c2[j].lines@.contains(y) <==> c1[j].lines@.contains(y));
            }
            lemma_ascending_unique(c1[j].lines@, c2[j].lines@);
        }
    }
}

/// No two entries share a file and element path.
pub open spec fn raw_keys_distinct(m: Seq<RawElementContexts>) -> bool {
    forall|a: int, b: int| 0 <= a < b < m.len() ==>
        (#[trigger] m[a]).file_path@ != (#[trigger] m[b]).file_path@ || m[a].element_path@ != m[b].element_path@
}

/// No two elements of the mapping are the same source element.
pub open spec fn sources_distinct(m: Seq<ElementCoverage>) -> bool {
    forall|a: int, b: int| 0 <= a < b < m.len() ==> (#[trigger] m[a]).source@ != (#[trigger] m[b]).source@
}

/// Class raw contexts `c`, or those of a function that it encloses, record
/// line `l` under a test with mark `t`.
pub open spec fn class_has(
    c: RawElementContexts,
    funcs: Seq<RawElementContexts>,
    test_dir: Seq<char>,
    t: MarkView,
    l: u32,
) -> bool {
    raw_has(c, test_dir, t, l) || exists|f: int| 0 <= f < funcs.len()
        && encloses(raw_source(c, SourceElementType::Class), raw_source(funcs[f], SourceElementType::FunctionLike))
        && #[trigger] raw_has(funcs[f], test_dir, t, l)
}

/// Module raw contexts `m`, or what `class_has` gives for a class that it
/// encloses, record line `l` under a test with mark `t`.
pub open spec fn module_has(
    m: RawElementContexts,
    classes: Seq<RawElementContexts>,
    funcs: Seq<RawElementContexts>,
    test_dir: Seq<char>,
    t: MarkView,
    l: u32,
) -> bool {
    raw_has(m, test_dir, t, l) || exists|c: int| 0 <= c < classes.len()
        && encloses(raw_source(m, SourceElementType::Module), raw_source(classes[c], SourceElementType::Class))
        && #[trigger] class_has(classes[c], funcs, test_dir, t, l)
}

/// `out` is the full attribution of the three raw mappings: the modules, then
/// the classes, then the functions, one element per raw entry and in order.
/// A module holds its own lines and those of the classes it encloses, with
/// theirs; a class its own and those of the functions it encloses; a function
/// its own. Keys are unique and lines strictly ascending.
pub open spec fn built_from(
    mods: Seq<RawElementContexts>,
    classes: Seq<RawElementContexts>,
    funcs: Seq<RawElementContexts>,
    test_dir: Seq<char>,
    out: Seq<ElementCoverage>,
) -> bool {
    let nm = mods.len() as int;
    let nc = classes.len() as int;
    &&& out.len() == mods.len() + classes.len() + funcs.len()
    &&& forall|k: int| 0 <= k < out.len() ==> marks_unique(#[trigger] out[k].coverage@) && coverage_sorted(out[k].coverage@)
        && coverage_nonempty(out[k].coverage@)
    &&& forall|k: int| 0 <= k < nm ==> (#[trigger] out[k]).source@ == raw_source(mods[k], SourceElementType::Module)
    &&& forall|k: int| nm <= k < nm + nc ==> (#[trigger] out[k]).source@ == raw_source(classes[k - nm], SourceElementType::Class)
    &&& forall|k: int| nm + nc <= k < out.len() ==> (#[trigger] out[k]).source@ == raw_source(funcs[k - nm - nc], SourceElementType::FunctionLike)
    &&& forall|k: int, t: MarkView, l: u32| 0 <= k < nm ==>
        (#[trigger] has_line(out[k].coverage@, t, l) <==> module_has(mods[k], classes, funcs, test_dir, t, l))
    &&& forall|k: int, t: MarkView, l: u32| nm <= k < nm + nc ==>
        (#[trigger] has_line(out[k].coverage@, t, l) <==> class_has(classes[k - nm], funcs, test_dir, t, l))
    &&& forall|k: int, t: MarkView, l: u32| nm + nc <= k < out.len() ==>
        (#[trigger] has_line(out[k].coverage@, t, l) <==> raw_has(funcs[k - nm - nc], test_dir, t, l))
    &&& raw_keys_distinct(mods) && raw_keys_distinct(classes) && raw_keys_distinct(funcs) ==> sources_distinct(out)
}

/// A line that a function's contexts attribute to a test is, in the built
/// attribution, attributed to that test by each class of the same file whose
/// path encloses the function's, and by the module of that file.
pub proof fn upward_inclusion(
    mods: Seq<RawElementContexts>,
    classes: Seq<RawElementContexts>,
    funcs: Seq<RawElementContexts>,
    test_dir: Seq<char>,
    out: Seq<ElementCoverage>,
    m: int,
    c: int,
    f: int,
    t: MarkView,
    l: u32,
)
    requires
        built_from(mods, classes, funcs, test_dir, out),
        0 <= m < mods.len(),
        0 <= c < classes.len(),
        0 <= f < funcs.len(),
        raw_has(funcs[f], test_dir, t, l),
        classes[c].file_path@ == funcs[f].file_path@,
        element_within(classes[c].element_path@, funcs[f].element_path@),
        mods[m].file_path@ == funcs[f].file_path@,
        mods[m].element_path@.len() == 0,
    ensures
        has_line(out[mods.len() + c].coverage@, t, l),
        has_line(out[m].coverage@, t, l),
{
    let nm = mods.len() as int;
    assert(class_has(classes[c], funcs, test_dir, t, l));
    assert(has_line(out[nm + c].coverage@, t, l));
    assert(module_has(mods[m], classes, funcs, test_dir, t, l));
    assert(has_line(out[m].coverage@, t, l));
}

/// Some entry of `m` in file `file` records line `l` under mark `t`.
pub open spec fn raw_in_file(m: Seq<RawElementContexts>, file: Seq<char>, test_dir: Seq<char>, t: MarkView, l: u32) -> bool {
    exists|i: int| 0 <= i < m.len() && m[i].file_path@ == file && #[trigger] raw_has(m[i], test_dir, t, l)
}

/// No line crosses files in the built attribution: whatever an element holds
/// was recorded by a raw entry of its own file.
pub proof fn build_stays_in_file(
    mods: Seq<RawElementContexts>,
    classes: Seq<RawElementContexts>,
    funcs: Seq<RawElementContexts>,
    test_dir: Seq<char>,
    out: Seq<ElementCoverage>,
    k: int,
    t: MarkView,
    l: u32,
)
    requires
        built_from(mods, classes, funcs, test_dir, out),
        0 <= k < out.len(),
        has_line(out[k].coverage@, t, l),
    ensures
        raw_in_file(mods, out[k].source@.file, test_dir, t, l) || raw_in_file(classes, out[k].source@.file, test_dir, t, l)
            || raw_in_file(funcs, out[k].source@.file, test_dir, t, l),
{
    let nm = mods.len() as int;
    let nc = classes.len() as int;
    let file = out[k].source@.file;
    if k < nm {
        assert(out[k].source@ == raw_source(mods[k], SourceElementType::Module));
        assert(module_has(mods[k], classes, funcs, test_dir, t, l));
        if raw_has(mods[k], test_dir, t, l) {
            assert(raw_in_file(mods, file, test_dir, t, l));
        } else {
            let c = choose|c: int| 0 <= c < classes.len()
                && encloses(raw_source(mods[k], SourceElementType::Module), raw_source(classes[c], SourceElementType::Class))
                && #[trigger] class_has(classes[c], funcs, test_dir, t, l);
            if raw_has(classes[c], test_dir, t, l) {
                assert(raw_in_file(classes, file, test_dir, t, l));
            } else {
                let f = choose|f: int| 0 <= f < funcs.len()
                    && encloses(raw_source(classes[c], SourceElementType::Class), raw_source(funcs[f], SourceElementType::FunctionLike))
                    && #[trigger] raw_has(funcs[f], test_dir, t, l);
                assert(raw_in_file(funcs, file, test_dir, t, l));
            }
        }
    } else if k < nm + nc {
        assert(out[k].source@ == raw_source(classes[k - nm], SourceElementType::Class));
        assert(class_has(classes[k - nm], funcs, test_dir, t, l));
        if raw_has(classes[k - nm], test_dir, t, l) {
            assert(raw_in_file(classes, file, test_dir, t, l));
        } else {
            let f = choose|f: int| 0 <= f < funcs.len()
                && encloses(raw_source(classes[k - nm], SourceElementType::Class), raw_source(funcs[f], SourceElementType::FunctionLike))
                && #[trigger] raw_has(funcs[f], test_dir, t, l);
            assert(raw_in_file(funcs, file, test_dir, t, l));
        }
    } else {
        assert(out[k].source@ == raw_source(funcs[k - nm - nc], SourceElementType::FunctionLike));
        assert(raw_has(funcs[k - nm - nc], test_dir, t, l));
        assert(raw_in_file(funcs, file, test_dir, t, l));
    }
}

/// After accumulation, an element holds every line of every donor element
/// that it encloses, under the same key.
pub proof fn accumulation_includes_enclosed(
    before: Seq<ElementCoverage>,
    donor: Seq<ElementCoverage>,
    after: Seq<ElementCoverage>,
    i: int,
    j: int,
    t: MarkView,
    l: u32,
)
    requires
        accumulated(before, donor, after),
        0 <= i < before.len(),
        0 <= j < donor.len(),
        encloses(before[i].source@, donor[j].source@),
        has_line(donor[j].coverage@, t, l),
    ensures
        has_line(after[i].coverage@, t, l),
{
    assert(donated(before[i].source@, donor, t, l));
}

// ---------------------------------------------------------------------------
// Line sequences

/// Copy of a line sequence.
fn copy_lines(v: &Vec<u32>) -> (r: Vec<u32>)
    ensures
        r@ == v@,
{
    let mut r: Vec<u32> = Vec::new();
    let mut i: usize = 0;
    while i < v.len()
        invariant
            i <= v.len(),
            r@ == v@.subrange(0, i as int),
        decreases v.len() - i,
    {
        r.push(v[i]);
        proof {
            assert(r@ =~= v@.subrange(0, i + 1));
        }
        i = i + 1;
    }
    proof {
        assert(r@ =~= v@);
    }
    r
}

/// Adds `x` to a strictly ascending sequence, unless it is there already.
fn insert_sorted(v: Vec<u32>, x: u32) -> (r: Vec<u32>)
    requires
        strictly_ascending(v@),
    ensures
        strictly_ascending(r@),
        forall|y: u32| #[trigger] r@.contains(y) <==> (v@.contains(y) || y == x),
{
    let ghost before = v@;
    let mut w = v;
    let mut i: usize = 0;
    while i < w.len() && w[i] < x
        invariant
            w@ == before,
            i <= w.len(),
            strictly_ascending(w@),
            forall|k: int| 0 <= k < i ==> w@[k] < x,
        decreases w.len() - i,
    {
        i = i + 1;
    }
    if i < w.len() && w[i] == x {
        proof {
            assert(w@[i as int] == x);
            assert forall|y: u32| w@.contains(y) <==> (before.contains(y) || y == x) by {
                if y == x {
                    assert(w@[i as int] == y);
                }
            }
        }
    } else {
        w.insert(i, x);
        proof {
            assert forall|y: u32| w@.contains(y) <==> (before.contains(y) || y == x) by {
                if w@.contains(y) {
                    let k = choose|k: int| 0 <= k < w@.len() && w@[k] == y;
                    if k < i {
                        assert(before[k] == y);
                    } else if k > i {
                        assert(before[k - 1] == y);
                    }
                }
                if before.contains(y) {
                    let k = choose|k: int| 0 <= k < before.len() && before[k] == y;
                    if k < i {
                        assert(w@[k] == y);
                    } else {
                        assert(w@[k + 1] == y);
                    }
                }
                if y == x {
                    assert(w@[i as int] == y);
                }
            }
        }
    }
    proof {
        assert(forall|y: u32| #[trigger] w@.contains(y) <==> (v@.contains(y) || y == x));
    }
    w
}

/// The distinct values of `v`, ascending.
pub fn sorted_distinct(v: &Vec<u32>) -> (r: Vec<u32>)
    ensures
        strictly_ascending(r@),
        forall|y: u32| r@.contains(y) <==> v@.contains(y),
{
    let mut r: Vec<u32> = Vec::new();
    let mut i: usize = 0;
    while i < v.len()
        invariant
            i <= v.len(),
            strictly_ascending(r@),
            forall|y: u32| r@.contains(y) <==> v@.subrange(0, i as int).contains(y),
        decreases v.len() - i,
    {
        r = insert_sorted(r, v[i]);
        proof {
            assert forall|y: u32| r@.contains(y) <==> v@.subrange(0, i + 1).contains(y) by {
                if v@.subrange(0, i as int).contains(y) {
                    let w = v@.subrange(0, i as int);
                    let k = choose|k: int| 0 <= k < w.len() && w[k] == y;
                    assert(v@.subrange(0, i + 1)[k] == y);
                }
                if v@.subrange(0, i + 1).contains(y) {
                    let w = v@.subrange(0, i + 1);
                    let k = choose|k: int| 0 <= k < w.len() && w[k] == y;
                    if k < i {
                        assert(v@.subrange(0, i as int)[k] == y);
                    }
                }
                if y == v@[i as int] {
                    assert(v@.subrange(0, i + 1)[i as int] == y);
                }
            }
        }
        i = i + 1;
    }
    proof {
        assert(v@.subrange(0, v.len() as int) =~= v@);
    }
    r
}

/// `a` followed by `b`.
fn append_lines(a: Vec<u32>, b: &Vec<u32>) -> (r: Vec<u32>)
    ensures
        r@ == a@ + b@,
{
    let mut r = a;
    let ghost start = r@;
    let mut k: usize = 0;
    while k < b.len()
        invariant
            k <= b.len(),
            r@ == start + b@.subrange(0, k as int),
        decreases b.len() - k,
    {
        r.push(b[k]);
        proof {
            assert(r@ =~= start + b@.subrange(0, k + 1));
        }
        k = k + 1;
    }
    proof {
        assert(b@.subrange(0, b.len() as int) =~= b@);
    }
    r
}

proof fn lemma_concat_contains(a: Seq<u32>, b: Seq<u32>, y: u32)
    ensures
        (a + b).contains(y) <==> (a.contains(y) || b.contains(y)),
{
    if (a + b).contains(y) {
        let k = choose|k: int| 0 <= k < (a + b).len() && (a + b)[k] == y;
        if k < a.len() {
            assert(a[k] == y);
        } else {
            assert(b[k - a.len()] == y);
        }
    }
    if a.contains(y) {
        let k = choose|k: int| 0 <= k < a.len() && a[k] == y;
        assert((a + b)[k] == y);
    }
    if b.contains(y) {
        let k = choose|k: int| 0 <= k < b.len() && b[k] == y;
        assert((a + b)[k + a.len()] == y);
    }
}

// ---------------------------------------------------------------------------
// Coverage of one element

/// Adds `lines` under `mark`: appended to the entry of that mark, or a new
/// entry at the end.
pub fn merge_lines(cov: Vec<TestLines>, mark: &CoverageMarks, lines: &Vec<u32>) -> (r: Vec<TestLines>)
    requires
        marks_unique(cov@),
    ensures
        marks_unique(r@),
        coverage_nonempty(cov@) ==> coverage_nonempty(r@),
        forall|t: MarkView, l: u32|
            #[trigger] has_line(r@, t, l) <==> (has_line(cov@, t, l) || (t == mark@ && lines@.contains(l))),
        forall|t: MarkView| #[trigger] lines_of(r@, t) == lines_of(cov@, t) + if t == mark@ {
            lines@
        } else {
            Seq::<u32>::empty()
        },
{
    let ghost before = cov@;
    if lines.len() == 0 {
        proof {
            assert forall|t: MarkView| #[trigger] lines_of(before, t) == lines_of(before, t) + if t == mark@ {
                lines@
            } else {
                Seq::<u32>::empty()
            } by {
                assert(lines_of(before, t) =~= lines_of(before, t) + if t == mark@ {
                    lines@
                } else {
                    Seq::<u32>::empty()
                });
            }
            assert forall|t: MarkView, l: u32|
                has_line(before, t, l) <==> (has_line(before, t, l) || (t == mark@ && lines@.contains(l))) by {
            }
        }
        return cov;
    }
    let mut c = cov;
    let mut j: usize = 0;
    while j < c.len() && !c[j].mark.same_as(mark)
        invariant
            c@ == before,
            j <= c.len(),
            forall|k: int| 0 <= k < j ==> c@[k].mark@ != mark@,
        decreases c.len() - j,
    {
        j = j + 1;
    }
    if j < c.len() {
        let e = c.remove(j);
        let ghost old_lines = e.lines@;
        let merged = append_lines(e.lines, lines);
        c.insert(j, TestLines { mark: e.mark, lines: merged });
        proof {
            assert(c@ =~= before.update(j as int, c@[j as int]));
            assert forall|t: MarkView, l: u32|
                #[trigger] has_line(c@, t, l) <==> (has_line(before, t, l) || (t == mark@ && lines@.contains(l))) by {
                lemma_concat_contains(old_lines, lines@, l);
                if has_line(c@, t, l) {
                    let q = choose|q: int| 0 <= q < c@.len() && #[trigger] entry_has(c@[q], t, l);
                    if q != j {
                        assert(entry_has(before[q], t, l));
                    } else if !lines@.contains(l) {
                        assert(entry_has(before[q], t, l));
                    }
                }
                if has_line(before, t, l) {
                    let q = choose|q: int| 0 <= q < before.len() && #[trigger] entry_has(before[q], t, l);
                    assert(entry_has(c@[q], t, l));
                }
                if t == mark@ && lines@.contains(l) {
                    assert(entry_has(c@[j as int], t, l));
                }
            }
            if coverage_nonempty(before) {
                assert forall|k: int| 0 <= k < c@.len() implies (#[trigger] c@[k]).lines@.len() > 0 by {
                    if k == j {
                        assert(before[k].lines@.len() > 0);
                    } else {
                        assert(c@[k] == before[k]);
                    }
                }
            }
            assert forall|a: int, b: int| 0 <= a < b < c@.len() implies c@[a].mark@ != c@[b].mark@ by {
                assert(c@[a].mark@ == before[a].mark@ && c@[b].mark@ == before[b].mark@);
            }
            assert forall|t: MarkView| #[trigger] lines_of(c@, t) == lines_of(before, t) + if t == mark@ {
                lines@
            } else {
                Seq::<u32>::empty()
            } by {
                if t == mark@ {
                    lemma_lines_of_at(c@, j as int, t);
                    lemma_lines_of_at(before, j as int, t);
                } else {
                    lemma_lines_of_cases(before, t);
                    lemma_lines_of_cases(c@, t);
                    if exists|k: int| 0 <= k < before.len() && (#[trigger] before[k]).mark@ == t {
                        let k = choose|k: int| 0 <= k < before.len() && (#[trigger] before[k]).mark@ == t;
                        assert(c@[k] == before[k]);
                    }
                    if exists|k: int| 0 <= k < c@.len() && (#[trigger] c@[k]).mark@ == t {
                        let k = choose|k: int| 0 <= k < c@.len() && (#[trigger] c@[k]).mark@ == t;
                        assert(c@[k] == before[k]);
                    }
                    assert(lines_of(c@, t) =~= lines_of(before, t) + Seq::<u32>::empty());
                }
            }
        }
        c
    } else {
        c.push(TestLines { mark: mark.duplicate(), lines: copy_lines(lines) });
        proof {
            assert forall|t: MarkView, l: u32|
                #[trigger] has_line(c@, t, l) <==> (has_line(before, t, l) || (t == mark@ && lines@.contains(l))) by {
                if has_line(c@, t, l) {
                    let q = choose|q: int| 0 <= q < c@.len() && #[trigger] entry_has(c@[q], t, l);
                    if q < before.len() {
                        assert(entry_has(before[q], t, l));
                    }
                }
                if has_line(before, t, l) {
                    let q = choose|q: int| 0 <= q < before.len() && #[trigger] entry_has(before[q], t, l);
                    assert(entry_has(c@[q], t, l));
                }
                if t == mark@ && lines@.contains(l) {
                    assert(entry_has(c@[before.len() as int], t, l));
                }
            }
            assert(c@.drop_last() =~= before);
            assert forall|t: MarkView| #[trigger] lines_of(c@, t) == lines_of(before, t) + if t == mark@ {
                lines@
            } else {
                Seq::<u32>::empty()
            } by {
                if t == mark@ {
                    lemma_lines_of_absent(before, t);
                }
            }
        }
        c
    }
}

/// The coverage recorded by raw line entries. A line whose number does not
/// parse is skipped; each test identifier becomes a mark.
pub fn coverage_from(contexts: &Vec<RawLineContexts>, py_test_dir: &str) -> (r: Vec<TestLines>)
    ensures
        marks_unique(r@),
        coverage_nonempty(r@),
        forall|t: MarkView| #[trigger] lines_of(r@, t) == raw_lines(contexts@, py_test_dir@, t),
        forall|t: MarkView, l: u32|
            has_line(r@, t, l) <==> raw_upto(contexts@, contexts@.len() as int, py_test_dir@, t, l),
{
    let ghost ctx = contexts@;
    let mut c: Vec<TestLines> = Vec::new();
    let mut a: usize = 0;
    while a < contexts.len()
        invariant
            ctx == contexts@,
            a <= contexts.len(),
            marks_unique(c@),
            coverage_nonempty(c@),
            forall|t: MarkView| #[trigger] lines_of(c@, t) == raw_lines(ctx.subrange(0, a as int), py_test_dir@, t),
            forall|t: MarkView, l: u32| has_line(c@, t, l) <==> raw_upto(ctx, a as int, py_test_dir@, t, l),
        decreases contexts.len() - a,
    {
        let entry = &contexts[a];
        proof {
            assert(ctx.subrange(0, a + 1).drop_last() =~= ctx.subrange(0, a as int));
            assert(ctx.subrange(0, a + 1).last() == ctx[a as int]);
        }
        match parse_u32(entry.line.as_str()) {
            None => {
                proof {
                    assert forall|t: MarkView| #[trigger] lines_of(c@, t) == raw_lines(ctx.subrange(0, a + 1), py_test_dir@, t) by {
                        assert(raw_lines(ctx.subrange(0, a + 1), py_test_dir@, t) =~= raw_lines(ctx.subrange(0, a as int), py_test_dir@, t));
                    }
                    assert forall|t: MarkView, l: u32|
                        raw_upto(ctx, a + 1, py_test_dir@, t, l) <==> raw_upto(ctx, a as int, py_test_dir@, t, l) by {
                        if raw_upto(ctx, a + 1, py_test_dir@, t, l) {
                            let (a2, b2) = choose|a2: int, b2: int| 0 <= a2 < a + 1 && a2 < ctx.len()
                                && #[trigger] raw_line_has(ctx[a2], b2, py_test_dir@, t, l);
                            assert(a2 != a);
                        }
                        if raw_upto(ctx, a as int, py_test_dir@, t, l) {
                            let (a2, b2) = choose|a2: int, b2: int| 0 <= a2 < a && a2 < ctx.len()
                                && #[trigger] raw_line_has(ctx[a2], b2, py_test_dir@, t, l);
                            assert(raw_line_has(ctx[a2], b2, py_test_dir@, t, l));
                        }
                    }
                }
            },
            Some(line) => {
                let mut b: usize = 0;
                while b < entry.tests.len()
                    invariant
                        ctx == contexts@,
                        a < contexts.len(),
                        *entry == ctx[a as int],
                        parsed_u32(entry.line@) == Some(line),
                        b <= entry.tests.len(),
                        marks_unique(c@),
                        coverage_nonempty(c@),
                        forall|t: MarkView| #[trigger] lines_of(c@, t) == raw_lines(ctx.subrange(0, a as int), py_test_dir@, t)
                            + tests_lines(entry.tests@.subrange(0, b as int), py_test_dir@, t, line),
                        forall|t: MarkView, l: u32| has_line(c@, t, l) <==> (raw_upto(ctx, a as int, py_test_dir@, t, l)
                            || exists|b2: int| 0 <= b2 < b && #[trigger] raw_line_has(ctx[a as int], b2, py_test_dir@, t, l)),
                    decreases entry.tests.len() - b,
                {
                    let mark = CoverageMarks::from_raw(entry.tests[b].as_str(), py_test_dir);
                    let one = vec![line];
                    let ghost prev = c@;
                    c = merge_lines(c, &mark, &one);
                    proof {
                        assert(one@ =~= seq![line]);
                        let ghost tb = entry.tests@;
                        assert(tb.subrange(0, b + 1).drop_last() =~= tb.subrange(0, b as int));
                        assert(tb.subrange(0, b + 1).last() == tb[b as int]);
                        assert forall|t: MarkView| #[trigger] lines_of(c@, t) == raw_lines(ctx.subrange(0, a as int), py_test_dir@, t)
                            + tests_lines(tb.subrange(0, b + 1), py_test_dir@, t, line) by {
                            assert(lines_of(c@, t) =~= raw_lines(ctx.subrange(0, a as int), py_test_dir@, t)
                                + tests_lines(tb.subrange(0, b + 1), py_test_dir@, t, line));
                        }
                        assert forall|t: MarkView, l: u32| has_line(c@, t, l) <==> (raw_upto(ctx, a as int, py_test_dir@, t, l)
                            || exists|b2: int| 0 <= b2 < b + 1 && #[trigger] raw_line_has(ctx[a as int], b2, py_test_dir@, t, l)) by {
                            assert(one@.contains(l) <==> l == line) by {
                                if l == line {
                                    assert(one@[0] == l);
                                }
                            }
                            if t == mark@ && l == line {
                                assert(raw_line_has(ctx[a as int], b as int, py_test_dir@, t, l));
                            }
                            if exists|b2: int| 0 <= b2 < b + 1 && #[trigger] raw_line_has(ctx[a as int], b2, py_test_dir@, t, l) {
                                let b2 = choose|b2: int| 0 <= b2 < b + 1 && #[trigger] raw_line_has(ctx[a as int], b2, py_test_dir@, t, l);
                                if b2 < b {
                                    assert(raw_line_has(ctx[a as int], b2, py_test_dir@, t, l));
                                }
                            }
                        }
                    }
                    b = b + 1;
                }
                proof {
                    assert(entry.tests@.subrange(0, entry.tests@.len() as int) =~= entry.tests@);
                    assert forall|t: MarkView| #[trigger] lines_of(c@, t) == raw_lines(ctx.subrange(0, a + 1), py_test_dir@, t) by {
                        assert(raw_lines(ctx.subrange(0, a + 1), py_test_dir@, t) =~= raw_lines(ctx.subrange(0, a as int), py_test_dir@, t)
                            + tests_lines(entry.tests@, py_test_dir@, t, line));
                    }
                    assert forall|t: MarkView, l: u32| has_line(c@, t, l) <==> raw_upto(ctx, a + 1, py_test_dir@, t, l) by {
                        if raw_upto(ctx, a + 1, py_test_dir@, t, l) {
                            let (a2, b2) = choose|a2: int, b2: int| 0 <= a2 < a + 1 && a2 < ctx.len()
                                && #[trigger] raw_line_has(ctx[a2], b2, py_test_dir@, t, l);
                            if a2 < a {
                                assert(raw_upto(ctx, a as int, py_test_dir@, t, l));
                            } else {
                                assert(raw_line_has(ctx[a as int], b2, py_test_dir@, t, l));
                            }
                        }
                        if raw_upto(ctx, a as int, py_test_dir@, t, l) {
                            let (a2, b2) = choose|a2: int, b2: int| 0 <= a2 < a && a2 < ctx.len()
                                && #[trigger] raw_line_has(ctx[a2], b2, py_test_dir@, t, l);
                            assert(raw_line_has(ctx[a2], b2, py_test_dir@, t, l));
                        }
                        if exists|b2: int| 0 <= b2 < entry.tests.len() && #[trigger] raw_line_has(ctx[a as int], b2, py_test_dir@, t, l) {
                            let b2 = choose|b2: int| 0 <= b2 < entry.tests.len() && #[trigger] raw_line_has(ctx[a as int], b2, py_test_dir@, t, l);
                            assert(raw_line_has(ctx[a as int], b2, py_test_dir@, t, l));
                        }
                    }
                }
            },
        }
        a = a + 1;
    }
    proof {
        assert(ctx.subrange(0, ctx.len() as int) =~= ctx);
    }
    c
}

/// Copy of a coverage.
fn copy_coverage(c: &Vec<TestLines>) -> (r: Vec<TestLines>)
    ensures
        same_coverage(c@, r@),
{
    let mut r: Vec<TestLines> = Vec::new();
    let mut j: usize = 0;
    while j < c.len()
        invariant
            j <= c.len(),
            r.len() == j,
            forall|k: int| 0 <= k < j ==> (#[trigger] c@[k]).mark@ == r@[k].mark@ && c@[k].lines@ == r@[k].lines@,
        decreases c.len() - j,
    {
        r.push(TestLines { mark: c[j].mark.duplicate(), lines: copy_lines(&c[j].lines) });
        j = j + 1;
    }
    r
}

// ---------------------------------------------------------------------------
// Mappings

/// Adds to `cov` every line that an element of `donor` enclosed by `source` has.
fn accumulated_coverage(source: &SourceElement, cov: Vec<TestLines>, donor: &Vec<ElementCoverage>) -> (r: Vec<TestLines>)
    requires
        marks_unique(cov@),
    ensures
        marks_unique(r@),
        coverage_nonempty(cov@) ==> coverage_nonempty(r@),
        forall|t: MarkView| #[trigger] lines_of(r@, t) == lines_of(cov@, t) + donor_lines(source@, donor@, t),
        (forall|j: int| 0 <= j < donor.len() ==> !encloses(source@, (#[trigger] donor@[j]).source@)) ==> r@ == cov@,
        forall|t: MarkView, l: u32| has_line(r@, t, l) <==> (has_line(cov@, t, l) || donated(source@, donor@, t, l)),
{
    let ghost start = cov@;
    let mut c = cov;
    let mut j: usize = 0;
    while j < donor.len()
        invariant
            j <= donor.len(),
            marks_unique(c@),
            coverage_nonempty(start) ==> coverage_nonempty(c@),
            forall|t: MarkView| #[trigger] lines_of(c@, t) == lines_of(start, t) + donor_lines(source@, donor@.subrange(0, j as int), t),
            (forall|j2: int| 0 <= j2 < j ==> !encloses(source@, (#[trigger] donor@[j2]).source@)) ==> c@ == start,
            forall|t: MarkView, l: u32| #[trigger] has_line(c@, t, l) <==> (has_line(start, t, l)
                || exists|j2: int| 0 <= j2 < j && encloses(source@, donor@[j2].source@) && #[trigger] has_line(donor@[j2].coverage@, t, l)),
        decreases donor.len() - j,
    {
        let ghost before_j = c@;
        let d = &donor[j];
        proof {
            assert(donor@.subrange(0, j + 1).drop_last() =~= donor@.subrange(0, j as int));
            assert(donor@.subrange(0, j + 1).last() == donor@[j as int]);
        }
        if source.does_match_at_start_of(&d.source) {
            let mut k: usize = 0;
            while k < d.coverage.len()
                invariant
                    j < donor.len(),
                    *d == donor@[j as int],
                    k <= d.coverage.len(),
                    marks_unique(c@),
                    coverage_nonempty(start) ==> coverage_nonempty(c@),
                    forall|t: MarkView| #[trigger] lines_of(c@, t) == lines_of(before_j, t) + lines_of(d.coverage@.subrange(0, k as int), t),
                    forall|t: MarkView, l: u32| #[trigger] has_line(c@, t, l) <==> (has_line(before_j, t, l)
                        || exists|k2: int| 0 <= k2 < k && #[trigger] entry_has(d.coverage@[k2], t, l)),
                decreases d.coverage.len() - k,
            {
                let ghost prev = c@;
                c = merge_lines(c, &d.coverage[k].mark, &d.coverage[k].lines);
                proof {
                    let ghost dc = d.coverage@;
                    assert(dc.subrange(0, k + 1).drop_last() =~= dc.subrange(0, k as int));
                    assert(dc.subrange(0, k + 1).last() == dc[k as int]);
                    assert forall|t: MarkView| #[trigger] lines_of(c@, t) == lines_of(before_j, t) + lines_of(dc.subrange(0, k + 1), t) by {
                        assert(lines_of(c@, t) =~= lines_of(before_j, t) + lines_of(dc.subrange(0, k + 1), t));
                    }
                    assert forall|t: MarkView, l: u32| #[trigger] has_line(c@, t, l) <==> (has_line(before_j, t, l)
                        || exists|k2: int| 0 <= k2 < k + 1 && #[trigger] entry_has(d.coverage@[k2], t, l)) by {
                        if t == d.coverage@[k as int].mark@ && d.coverage@[k as int].lines@.contains(l) {
                            assert(entry_has(d.coverage@[k as int], t, l));
                        }
                        if exists|k2: int| 0 <= k2 < k + 1 && #[trigger] entry_has(d.coverage@[k2], t, l) {
                            let k2 = choose|k2: int| 0 <= k2 < k + 1 && #[trigger] entry_has(d.coverage@[k2], t, l);
                            if k2 < k {
                                assert(entry_has(d.coverage@[k2], t, l));
                            }
                        }
                    }
                }
                k = k + 1;
            }
            proof {
                assert(d.coverage@.subrange(0, d.coverage@.len() as int) =~= d.coverage@);
                assert forall|t: MarkView| #[trigger] lines_of(c@, t) == lines_of(start, t) + donor_lines(source@, donor@.subrange(0, j + 1), t) by {
                    assert(lines_of(c@, t) =~= lines_of(start, t) + donor_lines(source@, donor@.subrange(0, j + 1), t));
                }
                assert forall|t: MarkView, l: u32| #[trigger] has_line(c@, t, l) <==> (has_line(start, t, l)
                    || exists|j2: int| 0 <= j2 < j + 1 && encloses(source@, donor@[j2].source@) && #[trigger] has_line(donor@[j2].coverage@, t, l)) by {
                    if has_line(d.coverage@, t, l) {
                        let k2 = choose|k2: int| 0 <= k2 < d.coverage@.len() && #[trigger] entry_has(d.coverage@[k2], t, l);
                        assert(entry_has(d.coverage@[k2], t, l));
                    }
                    if exists|k2: int| 0 <= k2 < d.coverage@.len() && #[trigger] entry_has(d.coverage@[k2], t, l) {
                        let k2 = choose|k2: int| 0 <= k2 < d.coverage@.len() && #[trigger] entry_has(d.coverage@[k2], t, l);
                        assert(has_line(d.coverage@, t, l));
                        assert(has_line(donor@[j as int].coverage@, t, l));
                    }
                    if exists|j2: int| 0 <= j2 < j + 1 && encloses(source@, donor@[j2].source@) && #[trigger] has_line(donor@[j2].coverage@, t, l) {
                        let j2 = choose|j2: int| 0 <= j2 < j + 1 && encloses(source@, donor@[j2].source@) && #[trigger] has_line(donor@[j2].coverage@, t, l);
                        if j2 < j {
                            assert(has_line(donor@[j2].coverage@, t, l));
                        }
                    }
                    if has_line(before_j, t, l) && !has_line(start, t, l) {
                        let j2 = choose|j2: int| 0 <= j2 < j && encloses(source@, donor@[j2].source@) && #[trigger] has_line(donor@[j2].coverage@, t, l);
                        assert(0 <= j2 < j + 1 && encloses(source@, donor@[j2].source@) && has_line(donor@[j2].coverage@, t, l));
                    }
                }
            }
        } else {
            proof {
                assert forall|t: MarkView| #[trigger] lines_of(c@, t) == lines_of(start, t) + donor_lines(source@, donor@.subrange(0, j + 1), t) by {
                    assert(lines_of(c@, t) =~= lines_of(start, t) + donor_lines(source@, donor@.subrange(0, j + 1), t));
                }
                assert forall|t: MarkView, l: u32| #[trigger] has_line(c@, t, l) <==> (has_line(start, t, l)
                    || exists|j2: int| 0 <= j2 < j + 1 && encloses(source@, donor@[j2].source@) && #[trigger] has_line(donor@[j2].coverage@, t, l)) by {
                    if exists|j2: int| 0 <= j2 < j + 1 && encloses(source@, donor@[j2].source@) && #[trigger] has_line(donor@[j2].coverage@, t, l) {
                        let j2 = choose|j2: int| 0 <= j2 < j + 1 && encloses(source@, donor@[j2].source@) && #[trigger] has_line(donor@[j2].coverage@, t, l);
                        assert(j2 != j);
                        assert(has_line(donor@[j2].coverage@, t, l));
                    }
                    if has_line(c@, t, l) && !has_line(start, t, l) {
                        let j2 = choose|j2: int| 0 <= j2 < j && encloses(source@, donor@[j2].source@) && #[trigger] has_line(donor@[j2].coverage@, t, l);
                        assert(0 <= j2 < j + 1 && encloses(source@, donor@[j2].source@) && has_line(donor@[j2].coverage@, t, l));
                    }
                }
            }
        }
        j = j + 1;
    }
    proof {
        assert(donor@.subrange(0, donor@.len() as int) =~= donor@);
    }
    c
}

impl AttributionEngine {
    /// Builds one element per raw entry, in order, each of kind `element_type_override`
    /// where one is given.
    pub fn construct_attribution_mapping_from(
        raw_map: &Vec<RawElementContexts>,
        element_type_override: Option<SourceElementType>,
        py_test_dir: &str,
    ) -> (r: Vec<ElementCoverage>)
        ensures
            r.len() == raw_map.len(),
            forall|i: int| 0 <= i < r.len() ==> #[trigger] built_element(raw_map@[i], element_type_override, py_test_dir@, r@[i]),
            raw_keys_distinct(raw_map@) ==> sources_distinct(r@),
    {
        let mut r: Vec<ElementCoverage> = Vec::new();
        let mut i: usize = 0;
        while i < raw_map.len()
            invariant
                i <= raw_map.len(),
                r.len() == i,
                forall|k: int| 0 <= k < i ==> #[trigger] built_element(raw_map@[k], element_type_override, py_test_dir@, r@[k]),
            decreases raw_map.len() - i,
        {
            let raw = &raw_map[i];
            let source = SourceElement::from_parts(
                raw.file_path.as_str(),
                raw.element_path.as_str(),
                element_type_override,
            );
            let coverage = coverage_from(&raw.contexts, py_test_dir);
            r.push(ElementCoverage { source, coverage });
            proof {
                assert(built_element(raw_map@[i as int], element_type_override, py_test_dir@, r@[i as int]));
            }
            i = i + 1;
        }
        proof {
            if raw_keys_distinct(raw_map@) {
                assert forall|x: int, y: int| 0 <= x < y < r@.len() implies (#[trigger] r@[x]).source@ != (#[trigger] r@[y]).source@ by {
                    assert(built_element(raw_map@[x], element_type_override, py_test_dir@, r@[x]));
                    assert(built_element(raw_map@[y], element_type_override, py_test_dir@, r@[y]));
                    assert(raw_map@[x].file_path@ != raw_map@[y].file_path@ || raw_map@[x].element_path@ != raw_map@[y].element_path@);
                }
            }
        }
        r
    }

    /// Adds to each element of `accumulating_map` the coverage of every element of
    /// `donoring_map` that it encloses. Lines may repeat until deduplicated.
    pub fn accumulate_subattribution(accumulating_map: &mut Vec<ElementCoverage>, donoring_map: &Vec<ElementCoverage>)
        requires
            mapping_well_formed(old(accumulating_map)@),
        ensures
            mapping_well_formed(final(accumulating_map)@),
            mapping_nonempty(old(accumulating_map)@) ==> mapping_nonempty(final(accumulating_map)@),
            accumulated(old(accumulating_map)@, donoring_map@, final(accumulating_map)@),
    {
        let ghost start = accumulating_map@;
        let mut out: Vec<ElementCoverage> = Vec::new();
        let mut i: usize = 0;
        while i < accumulating_map.len()
            invariant
                accumulating_map@ == start,
                start == old(accumulating_map)@,
                mapping_well_formed(start),
                i <= start.len(),
                out.len() == i,
                mapping_well_formed(out@),
                mapping_nonempty(start) ==> mapping_nonempty(out@),
                forall|k: int, t: MarkView| 0 <= k < i ==>
                    #[trigger] lines_of(out@[k].coverage@, t) == lines_of(start[k].coverage@, t) + donor_lines(start[k].source@, donoring_map@, t),
                forall|k: int| 0 <= k < i && (forall|j: int| 0 <= j < donoring_map@.len() ==> !encloses(start[k].source@, (#[trigger] donoring_map@[j]).source@))
                    ==> same_coverage(start[k].coverage@, #[trigger] out@[k].coverage@),
                forall|k: int| 0 <= k < i ==> (#[trigger] out@[k]).source@ == start[k].source@,
                forall|k: int, t: MarkView, l: u32| 0 <= k < i ==>
                    (#[trigger] has_line(out@[k].coverage@, t, l) <==> (has_line(start[k].coverage@, t, l)
                        || donated(start[k].source@, donoring_map@, t, l))),
            decreases start.len() - i,
        {
            let e = &accumulating_map[i];
            let cov = copy_coverage(&e.coverage);
            proof {
                lemma_same_coverage(e.coverage@, cov@);
                assert(marks_unique(start[i as int].coverage@));
                assert(mapping_nonempty(start) ==> coverage_nonempty(start[i as int].coverage@));
                assert forall|t: MarkView| #[trigger] lines_of(cov@, t) == lines_of(e.coverage@, t) by {
                    lemma_same_coverage_lines(e.coverage@, cov@, t);
                }
                lemma_same_coverage_lines(e.coverage@, cov@, MarkView::Uncovered);
            }
            let ghost copied = cov@;
            let cov = accumulated_coverage(&e.source, cov, donoring_map);
            out.push(ElementCoverage { source: e.source.duplicate(), coverage: cov });
            proof {
                assert(marks_unique(out@[i as int].coverage@));
                assert(mapping_nonempty(start) ==> coverage_nonempty(out@[i as int].coverage@));
                assert forall|t: MarkView| #[trigger] lines_of(out@[i as int].coverage@, t)
                    == lines_of(start[i as int].coverage@, t) + donor_lines(start[i as int].source@, donoring_map@, t) by {
                    assert(lines_of(copied, t) == lines_of(e.coverage@, t));
                }
            }
            i = i + 1;
        }
        *accumulating_map = out;
    }

    /// Replaces every line sequence of `attribution` by its distinct values,
    /// ascending.
    pub fn dedup(attribution: &mut Vec<ElementCoverage>)
        ensures
            mapping_deduped(old(attribution)@, final(attribution)@),
    {
        let ghost start = attribution@;
        let mut out: Vec<ElementCoverage> = Vec::new();
        let mut i: usize = 0;
        while i < attribution.len()
            invariant
                attribution@ == start,
                i <= start.len(),
                out.len() == i,
                forall|k: int| 0 <= k < i ==> (#[trigger] out@[k]).source@ == start[k].source@,
                forall|k: int| 0 <= k < i ==> coverage_deduped(start[k].coverage@, #[trigger] out@[k].coverage@),
            decreases start.len() - i,
        {
            let e = &attribution[i];
            let mut cov: Vec<TestLines> = Vec::new();
            let mut j: usize = 0;
            while j < e.coverage.len()
                invariant
                    i < start.len(),
                    *e == start[i as int],
                    j <= e.coverage.len(),
                    cov.len() == j,
                    forall|k: int| 0 <= k < j ==> (#[trigger] cov@[k]).mark@ == e.coverage@[k].mark@,
                    forall|k: int| 0 <= k < j ==> strictly_ascending(#[trigger] cov@[k].lines@),
                    forall|k: int, y: u32| 0 <= k < j ==> (#[trigger] cov@[k].lines@.contains(y) <==> e.coverage@[k].lines@.contains(y)),
                decreases e.coverage.len() - j,
            {
                let lines = sorted_distinct(&e.coverage[j].lines);
                cov.push(TestLines { mark: e.coverage[j].mark.duplicate(), lines });
                j = j + 1;
            }
            out.push(ElementCoverage { source: e.source.duplicate(), coverage: cov });
            proof {
                assert(coverage_deduped(start[i as int].coverage@, out@[i as int].coverage@));
            }
            i = i + 1;
        }
        *attribution = out;
    }

    /// Builds the three mappings, accumulates functions into classes and then
    /// classes into modules, deduplicates, and concatenates them.
    pub fn new(
        module_map: Vec<RawElementContexts>,
        class_map: Vec<RawElementContexts>,
        func_map: Vec<RawElementContexts>,
        py_test_dir: &str,
    ) -> (r: Self)
        ensures
            built_from(module_map@, class_map@, func_map@, py_test_dir@, r.full_accumulated_attribution@),
    {
        let ghost mods = module_map@;
        let ghost classes = class_map@;
        let ghost funcs = func_map@;
        let ghost td = py_test_dir@;
        let mut module_attribution = Self::construct_attribution_mapping_from(
            &module_map,
            Some(SourceElementType::Module),
            py_test_dir,
        );
        let mut class_attribution = Self::construct_attribution_mapping_from(
            &class_map,
            Some(SourceElementType::Class),
            py_test_dir,
        );
        let mut func_attribution = Self::construct_attribution_mapping_from(
            &func_map,
            Some(SourceElementType::FunctionLike),
            py_test_dir,
        );
        let ghost mb = module_attribution@;
        let ghost cb = class_attribution@;
        let ghost fb = func_attribution@;
        proof {
            assert forall|i: int| 0 <= i < cb.len() implies marks_unique(#[trigger] cb[i].coverage@) by {
                assert(built_element(classes[i], Some(SourceElementType::Class), td, cb[i]));
            }
            assert forall|i: int| 0 <= i < mb.len() implies marks_unique(#[trigger] mb[i].coverage@) by {
                assert(built_element(mods[i], Some(SourceElementType::Module), td, mb[i]));
            }
            assert forall|i: int| 0 <= i < cb.len() implies coverage_nonempty(#[trigger] cb[i].coverage@) by {
                assert(built_element(classes[i], Some(SourceElementType::Class), td, cb[i]));
            }
            assert forall|i: int| 0 <= i < mb.len() implies coverage_nonempty(#[trigger] mb[i].coverage@) by {
                assert(built_element(mods[i], Some(SourceElementType::Module), td, mb[i]));
            }
        }
        Self::accumulate_subattribution(&mut class_attribution, &func_attribution);
        let ghost ca = class_attribution@;
        proof {
            assert forall|i: int, t: MarkView, l: u32| 0 <= i < ca.len() implies
                (#[trigger] has_line(ca[i].coverage@, t, l) <==> class_has(classes[i], funcs, td, t, l)) by {
                assert(built_element(classes[i], Some(SourceElementType::Class), td, cb[i]));
                assert(has_line(ca[i].coverage@, t, l) <==> (has_line(cb[i].coverage@, t, l) || donated(cb[i].source@, fb, t, l)));
                if donated(cb[i].source@, fb, t, l) {
                    let j = choose|j: int| 0 <= j < fb.len() && encloses(cb[i].source@, fb[j].source@) && #[trigger] has_line(fb[j].coverage@, t, l);
                    assert(built_element(funcs[j], Some(SourceElementType::FunctionLike), td, fb[j]));
                    assert(raw_has(funcs[j], td, t, l));
                }
                if exists|f: int| 0 <= f < funcs.len()
                    && encloses(raw_source(classes[i], SourceElementType::Class), raw_source(funcs[f], SourceElementType::FunctionLike))
                    && #[trigger] raw_has(funcs[f], td, t, l) {
                    let f = choose|f: int| 0 <= f < funcs.len()
                        && encloses(raw_source(classes[i], SourceElementType::Class), raw_source(funcs[f], SourceElementType::FunctionLike))
                        && #[trigger] raw_has(funcs[f], td, t, l);
                    assert(built_element(funcs[f], Some(SourceElementType::FunctionLike), td, fb[f]));
                    assert(has_line(fb[f].coverage@, t, l));
                }
            }
        }
        Self::accumulate_subattribution(&mut module_attribution, &class_attribution);
        let ghost ma = module_attribution@;
        proof {
            assert forall|i: int, t: MarkView, l: u32| 0 <= i < ma.len() implies
                (#[trigger] has_line(ma[i].coverage@, t, l) <==> module_has(mods[i], classes, funcs, td, t, l)) by {
                assert(built_element(mods[i], Some(SourceElementType::Module), td, mb[i]));
                assert(has_line(ma[i].coverage@, t, l) <==> (has_line(mb[i].coverage@, t, l) || donated(mb[i].source@, ca, t, l)));
                if donated(mb[i].source@, ca, t, l) {
                    let j = choose|j: int| 0 <= j < ca.len() && encloses(mb[i].source@, ca[j].source@) && #[trigger] has_line(ca[j].coverage@, t, l);
                    assert(built_element(classes[j], Some(SourceElementType::Class), td, cb[j]));
                    assert(class_has(classes[j], funcs, td, t, l));
                }
                if exists|c: int| 0 <= c < classes.len()
                    && encloses(raw_source(mods[i], SourceElementType::Module), raw_source(classes[c], SourceElementType::Class))
                    && #[trigger] class_has(classes[c], funcs, td, t, l) {
                    let c = choose|c: int| 0 <= c < classes.len()
                        && encloses(raw_source(mods[i], SourceElementType::Module), raw_source(classes[c], SourceElementType::Class))
                        && #[trigger] class_has(classes[c], funcs, td, t, l);
                    assert(built_element(classes[c], Some(SourceElementType::Class), td, cb[c]));
                    assert(has_line(ca[c].coverage@, t, l));
                }
            }
        }
        Self::dedup(&mut module_attribution);
        Self::dedup(&mut class_attribution);
        Self::dedup(&mut func_attribution);
        let ghost md = module_attribution@;
        let ghost cd = class_attribution@;
        let ghost fd = func_attribution@;
        let mut out = module_attribution;
        out.append(&mut class_attribution);
        out.append(&mut func_attribution);
        proof {
            let nm = mods.len() as int;
            let nc = classes.len() as int;
            assert(out@ =~= md + cd + fd);
            assert forall|k: int| 0 <= k < out@.len() implies marks_unique(#[trigger] out@[k].coverage@)
                && coverage_sorted(out@[k].coverage@) && coverage_nonempty(out@[k].coverage@) && (forall|t: MarkView, l: u32|
                    #[trigger] has_line(out@[k].coverage@, t, l) == (if k < nm {
                        has_line(ma[k].coverage@, t, l)
                    } else if k < nm + nc {
                        has_line(ca[k - nm].coverage@, t, l)
                    } else {
                        has_line(fb[k - nm - nc].coverage@, t, l)
                    })) by {
                if k < nm {
                    assert(out@[k] == md[k]);
                    lemma_deduped_keeps_lines(ma[k].coverage@, md[k].coverage@);
                } else if k < nm + nc {
                    assert(out@[k] == cd[k - nm]);
                    lemma_deduped_keeps_lines(ca[k - nm].coverage@, cd[k - nm].coverage@);
                } else {
                    assert(out@[k] == fd[k - nm - nc]);
                    assert(built_element(funcs[k - nm - nc], Some(SourceElementType::FunctionLike), td, fb[k - nm - nc]));
                    lemma_deduped_keeps_lines(fb[k - nm - nc].coverage@, fd[k - nm - nc].coverage@);
                }
            }
            assert forall|k: int| 0 <= k < nm implies (#[trigger] out@[k]).source@ == raw_source(mods[k], SourceElementType::Module) by {
                assert(out@[k] == md[k]);
                assert(built_element(mods[k], Some(SourceElementType::Module), td, mb[k]));
            }
            assert forall|k: int| nm <= k < nm + nc implies (#[trigger] out@[k]).source@ == raw_source(classes[k - nm], SourceElementType::Class) by {
                assert(out@[k] == cd[k - nm]);
                assert(built_element(classes[k - nm], Some(SourceElementType::Class), td, cb[k - nm]));
            }
            assert forall|k: int| nm + nc <= k < out@.len() implies (#[trigger] out@[k]).source@ == raw_source(funcs[k - nm - nc], SourceElementType::FunctionLike) by {
                assert(out@[k] == fd[k - nm - nc]);
                assert(built_element(funcs[k - nm - nc], Some(SourceElementType::FunctionLike), td, fb[k - nm - nc]));
            }
            if raw_keys_distinct(mods) && raw_keys_distinct(classes) && raw_keys_distinct(funcs) {
                assert forall|a: int, b: int| 0 <= a < b < out@.len() implies (#[trigger] out@[a]).source@ != (#[trigger] out@[b]).source@ by {
                    if b < nm {
                        assert(mods[a].file_path@ != mods[b].file_path@ || mods[a].element_path@ != mods[b].element_path@);
                    } else if a >= nm && b < nm + nc {
                        assert(classes[a - nm].file_path@ != classes[b - nm].file_path@
                            || classes[a - nm].element_path@ != classes[b - nm].element_path@);
                    } else if a >= nm + nc {
                        assert(funcs[a - nm - nc].file_path@ != funcs[b - nm - nc].file_path@
                            || funcs[a - nm - nc].element_path@ != funcs[b - nm - nc].element_path@);
                    }
                }
            }
            assert forall|k: int, t: MarkView, l: u32| nm + nc <= k < out@.len() implies
                (#[trigger] has_line(out@[k].coverage@, t, l) <==> raw_has(funcs[k - nm - nc], td, t, l)) by {
                assert(built_element(funcs[k - nm - nc], Some(SourceElementType::FunctionLike), td, fb[k - nm - nc]));
            }
        }
        AttributionEngine { full_accumulated_attribution: out }
    }
}

} // verus!
