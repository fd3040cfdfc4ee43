use vstd::prelude::*;

use crate::engine::{RawElementContexts, RawLineContexts};
use crate::text::starts_with;

verus! {

/// Why a coverage report cannot be used for attribution.
#[derive(Debug, Clone, PartialEq, Eq)]
pub enum ParseError {
    InvalidPath(String),
    /// The report was collected without per-line contexts.
    ContextDisabled,
    /// No recorded context names a test.
    WrongContextFormat,
}

/// Metadata of a coverage report.
#[derive(Debug, Clone, PartialEq, Eq)]
pub struct Meta {
    pub format: u32,
    pub version: String,
    pub timestamp: String,
    pub branch_coverage: bool,
    /// Whether per-line contexts were recorded.
    pub show_contexts: bool,
}

/// Checks on a parsed coverage report, and the flattening of its tree.
pub struct CoverageParser;

/// The contexts of one class or function of a file, under its qualified name.
#[derive(Debug)]
pub struct NamedContexts {
    pub name: String,
    pub contexts: Vec<RawLineContexts>,
}

/// The contexts of one file of a report, with those of its classes and
/// functions.
#[derive(Debug)]
pub struct FileContexts {
    pub file_path: String,
    pub contexts: Vec<RawLineContexts>,
    pub classes: Vec<NamedContexts>,
    pub functions: Vec<NamedContexts>,
}

pub open spec fn strings_view(v: Seq<String>) -> Seq<Seq<char>> {
    v.map_values(|t: String| t@)
}

/// Model of a raw line entry: the line text and the test identifiers.
pub open spec fn line_view(r: RawLineContexts) -> (Seq<char>, Seq<Seq<char>>) {
    (r.line@, strings_view(r.tests@))
}

pub open spec fn contexts_view(c: Seq<RawLineContexts>) -> Seq<(Seq<char>, Seq<Seq<char>>)> {
    c.map_values(|r: RawLineContexts| line_view(r))
}

/// Model of raw element contexts: file path, element path, line entries.
pub open spec fn raw_view(e: RawElementContexts) -> (Seq<char>, Seq<char>, Seq<(Seq<char>, Seq<Seq<char>>)>) {
    (e.file_path@, e.element_path@, contexts_view(e.contexts@))
}

pub open spec fn raw_map_view(m: Seq<RawElementContexts>) -> Seq<(Seq<char>, Seq<char>, Seq<(Seq<char>, Seq<Seq<char>>)>)> {
    m.map_values(|e: RawElementContexts| raw_view(e))
}

/// The entries for the named parts of a file.
pub open spec fn named_entries(file: Seq<char>, parts: Seq<NamedContexts>) -> Seq<(Seq<char>, Seq<char>, Seq<(Seq<char>, Seq<Seq<char>>)>)> {
    parts.map_values(|n: NamedContexts| (file, n.name@, contexts_view(n.contexts@)))
}

/// One module entry per file, with an empty element path.
pub open spec fn module_entries(files: Seq<FileContexts>) -> Seq<(Seq<char>, Seq<char>, Seq<(Seq<char>, Seq<Seq<char>>)>)> {
    files.map_values(|f: FileContexts| (f.file_path@, Seq::<char>::empty(), contexts_view(f.contexts@)))
}

/// The class entries of every file, file by file.
pub open spec fn class_entries(files: Seq<FileContexts>) -> Seq<(Seq<char>, Seq<char>, Seq<(Seq<char>, Seq<Seq<char>>)>)>
    decreases files.len(),
{
    if files.len() == 0 {
        Seq::empty()
    } else {
        class_entries(files.drop_last()) + named_entries(files.last().file_path@, files.last().classes@)
    }
}

/// The function entries of every file, file by file.
pub open spec fn function_entries(files: Seq<FileContexts>) -> Seq<(Seq<char>, Seq<char>, Seq<(Seq<char>, Seq<Seq<char>>)>)>
    decreases files.len(),
{
    if files.len() == 0 {
        Seq::empty()
    } else {
        function_entries(files.drop_last()) + named_entries(files.last().file_path@, files.last().functions@)
    }
}

proof fn lemma_strings_view_push(s: Seq<String>, x: String)
    ensures
        strings_view(s.push(x)) == strings_view(s).push(x@),
{
    assert(strings_view(s.push(x)) =~= strings_view(s).push(x@));
}

proof fn lemma_contexts_view_push(s: Seq<RawLineContexts>, x: RawLineContexts)
    ensures
        contexts_view(s.push(x)) == contexts_view(s).push(line_view(x)),
{
    assert(contexts_view(s.push(x)) =~= contexts_view(s).push(line_view(x)));
}

proof fn lemma_raw_map_view_push(s: Seq<RawElementContexts>, x: RawElementContexts)
    ensures
        raw_map_view(s.push(x)) == raw_map_view(s).push(raw_view(x)),
{
    assert(raw_map_view(s.push(x)) =~= raw_map_view(s).push(raw_view(x)));
}

/// Copy of a list of strings.
fn copy_strings(v: &Vec<String>) -> (r: Vec<String>)
    ensures
        strings_view(r@) == strings_view(v@),
{
    let mut r: Vec<String> = Vec::new();
    let mut i: usize = 0;
    while i < v.len()
        invariant
            i <= v.len(),
            strings_view(r@) == strings_view(v@.subrange(0, i as int)),
        decreases v.len() - i,
    {
        let ghost old_r = r@;
        r.push(v[i].clone());
        proof {
            assert(strings_view(r@) =~= strings_view(v@.subrange(0, i + 1))) by {
                assert(v@.subrange(0, i + 1) =~= v@.subrange(0, i as int).push(v@[i as int]));
                lemma_strings_view_push(old_r, v@[i as int]);
                lemma_strings_view_push(v@.subrange(0, i as int), v@[i as int]);
            }
        }
        i = i + 1;
    }
    proof {
        assert(v@.subrange(0, v.len() as int) =~= v@);
    }
    r
}

/// Copy of a list of line entries.
fn copy_contexts(c: &Vec<RawLineContexts>) -> (r: Vec<RawLineContexts>)
    ensures
        contexts_view(r@) == contexts_view(c@),
{
    let mut r: Vec<RawLineContexts> = Vec::new();
    let mut i: usize = 0;
    while i < c.len()
        invariant
            i <= c.len(),
            contexts_view(r@) == contexts_view(c@.subrange(0, i as int)),
        decreases c.len() - i,
    {
        let ghost old_r = r@;
        r.push(RawLineContexts { line: c[i].line.clone(), tests: copy_strings(&c[i].tests) });
        proof {
            assert(c@.subrange(0, i + 1) =~= c@.subrange(0, i as int).push(c@[i as int]));
            lemma_contexts_view_push(old_r, r@[i as int]);
            lemma_contexts_view_push(c@.subrange(0, i as int), c@[i as int]);
        }
        i = i + 1;
    }
    proof {
        assert(c@.subrange(0, c.len() as int) =~= c@);
    }
    r
}

/// Appends one entry per named part of `file` to `out`.
fn push_named(out: Vec<RawElementContexts>, file: &String, parts: &Vec<NamedContexts>) -> (r: Vec<RawElementContexts>)
    ensures
        raw_map_view(r@) == raw_map_view(out@) + named_entries(file@, parts@),
{
    let mut r = out;
    let ghost start = raw_map_view(r@);
    let mut k: usize = 0;
    while k < parts.len()
        invariant
            k <= parts.len(),
            raw_map_view(r@) == start + named_entries(file@, parts@.subrange(0, k as int)),
        decreases parts.len() - k,
    {
        let ghost old_r = r@;
        r.push(RawElementContexts {
            file_path: file.clone(),
            element_path: parts[k].name.clone(),
            contexts: copy_contexts(&parts[k].contexts),
        });
        proof {
            assert(r@ =~= old_r.push(r@.last()));
            lemma_raw_map_view_push(old_r, r@.last());
            assert(named_entries(file@, parts@.subrange(0, k + 1)) =~= named_entries(file@, parts@.subrange(0, k as int)).push(
                (file@, parts@[k as int].name@, contexts_view(parts@[k as int].contexts@))));
            assert(raw_map_view(r@) =~= start + named_entries(file@, parts@.subrange(0, k + 1)));
        }
        k = k + 1;
    }
    proof {
        assert(parts@.subrange(0, parts.len() as int) =~= parts@);
    }
    r
}

/// Some context of `contexts` starts with `prefix`.
pub open spec fn some_context_starts_with(contexts: Seq<String>, prefix: Seq<char>) -> bool {
    exists|i: int| 0 <= i < contexts.len() && prefix.is_prefix_of(#[trigger] contexts[i]@)
}

/// The verdict on a report: contexts must be enabled, and some context must
/// start with `prefix`.
pub open spec fn validation_of(show_contexts: bool, contexts: Seq<String>, prefix: Seq<char>) -> Result<(), ParseError> {
    if !show_contexts {
        Err(ParseError::ContextDisabled)
    } else if !some_context_starts_with(contexts, prefix) {
        Err(ParseError::WrongContextFormat)
    } else {
        Ok(())
    }
}

impl CoverageParser {
    /// Validates a report given whether it recorded contexts and every context
    /// string it holds.
    pub fn validate_contexts(show_contexts: bool, contexts: &Vec<String>, test_dir_name: &str) -> (r: Result<(), ParseError>)
        ensures
            r == validation_of(show_contexts, contexts@, test_dir_name@),
    {
        if !show_contexts {
            return Err(ParseError::ContextDisabled);
        }
        let mut i: usize = 0;
        while i < contexts.len()
            invariant
                show_contexts,
                i <= contexts.len(),
                forall|k: int| 0 <= k < i ==> !test_dir_name@.is_prefix_of(#[trigger] contexts@[k]@),
            decreases contexts.len() - i,
        {
            if starts_with(contexts[i].as_str(), test_dir_name) {
                proof {
                    assert(test_dir_name@.is_prefix_of(contexts@[i as int]@));
                    assert(some_context_starts_with(contexts@, test_dir_name@));
                }
                return Ok(());
            }
            i = i + 1;
        }
        Err(ParseError::WrongContextFormat)
    }

    /// The raw module, class and function mappings of a report: one module
    /// entry per file, then its classes and its functions, file by file.
    pub fn report_source_elements_from(files: &Vec<FileContexts>) -> (r: (
        Vec<RawElementContexts>,
        Vec<RawElementContexts>,
        Vec<RawElementContexts>,
    ))
        ensures
            raw_map_view(r.0@) == module_entries(files@),
            raw_map_view(r.1@) == class_entries(files@),
            raw_map_view(r.2@) == function_entries(files@),
    {
        let mut module_map: Vec<RawElementContexts> = Vec::new();
        let mut class_map: Vec<RawElementContexts> = Vec::new();
        let mut func_map: Vec<RawElementContexts> = Vec::new();
        let mut i: usize = 0;
        while i < files.len()
            invariant
                i <= files.len(),
                module_map.len() == i,
                raw_map_view(module_map@) == module_entries(files@.subrange(0, i as int)),
                raw_map_view(class_map@) == class_entries(files@.subrange(0, i as int)),
                raw_map_view(func_map@) == function_entries(files@.subrange(0, i as int)),
            decreases files.len() - i,
        {
            let f = &files[i];
            proof {
                assert(files@.subrange(0, i + 1).drop_last() =~= files@.subrange(0, i as int));
            }
            let ghost old_m = module_map@;
            module_map.push(RawElementContexts {
                file_path: f.file_path.clone(),
                element_path: String::new(),
                contexts: copy_contexts(&f.contexts),
            });
            proof {
                lemma_raw_map_view_push(old_m, module_map@[i as int]);
                assert(module_entries(files@.subrange(0, i + 1)) =~= module_entries(files@.subrange(0, i as int)).push(
                    (f.file_path@, Seq::<char>::empty(), contexts_view(f.contexts@))));
            }
            class_map = push_named(class_map, &f.file_path, &f.classes);
            func_map = push_named(func_map, &f.file_path, &f.functions);
            i = i + 1;
        }
        proof {
            assert(files@.subrange(0, files.len() as int) =~= files@);
        }
        (module_map, class_map, func_map)
    }

    /// Validates a report against the default prefix `test`, which `tests`
    /// also starts with.
    pub fn validate_report(meta: &Meta, contexts: &Vec<String>) -> (r: Result<(), ParseError>)
        ensures
            r == validation_of(meta.show_contexts, contexts@, "test"@),
    {
        Self::validate_contexts(meta.show_contexts, contexts, "test")
    }
}

} // verus!
