//! Template registry: resolves template names to inline content or file
//! paths, collected from inline strings, directory scans and embedded sets.
//!
//! The registry is an association list with unique names. A file template is
//! registered under both its extensionless and its full name; inline
//! templates shadow file templates; templates with the same base name from
//! different source directories collide.

use vstd::prelude::*;

use crate::assoc::lemma_assoc_at;
use crate::assoc::lemma_assoc_none_keys;
use crate::assoc::lemma_upsert_absent;
use crate::assoc::lemma_upsert_at;
use crate::assoc::spec_upsert;
use crate::assoc::lemma_assoc_none;
use crate::assoc::lemma_assoc_push;
use crate::assoc::lemma_assoc_some;
use crate::assoc::lemma_assoc_update_other;
use crate::assoc::spec_assoc;
use crate::assoc::spec_unique_keys;
use crate::text::chars_eq;
use crate::text::chars_string;
use crate::text::ends_with_chars;
use crate::text::spec_ends_with;
use crate::text::str_chars;

verus! {

/// A template file discovered during a directory walk: its resolution names
/// and where it lives, without its content.
#[derive(Debug, Clone, PartialEq, Eq)]
pub struct TemplateFile {
    /// Resolution name without extension (e.g. "todos/list").
    pub name: String,
    /// Resolution name with extension (e.g. "todos/list.tmpl").
    pub name_with_ext: String,
    /// Absolute path to the template file.
    pub absolute_path: String,
    /// The template directory root this file belongs to.
    pub source_dir: String,
}

/// Priority of a template file name's extension: `.tmpl` before `.jinja2`
/// before `.j2`; anything else sorts last.
pub open spec fn spec_extension_priority(name_with_ext: Seq<char>) -> int {
    if spec_ends_with(name_with_ext, ".tmpl"@) {
        0
    } else if spec_ends_with(name_with_ext, ".jinja2"@) {
        1
    } else if spec_ends_with(name_with_ext, ".j2"@) {
        2
    } else {
        usize::MAX as int
    }
}

impl TemplateFile {
    /// Creates a new template file descriptor.
    pub fn new(name: &str, name_with_ext: &str, absolute_path: &str, source_dir: &str) -> (r:
        TemplateFile)
        ensures
            r.name@ == name@,
            r.name_with_ext@ == name_with_ext@,
            r.absolute_path@ == absolute_path@,
            r.source_dir@ == source_dir@,
    {
        TemplateFile {
            name: name.to_owned(),
            name_with_ext: name_with_ext.to_owned(),
            absolute_path: absolute_path.to_owned(),
            source_dir: source_dir.to_owned(),
        }
    }

    /// Returns the extension priority (lower is higher priority), or
    /// `usize::MAX` for an unrecognized extension.
    pub fn extension_priority(&self) -> (r: usize)
        ensures
            r as int == spec_extension_priority(self.name_with_ext@),
    {
        let chars = str_chars(self.name_with_ext.as_str());
        if ends_with_chars(&chars, &str_chars(".tmpl")) {
            0
        } else if ends_with_chars(&chars, &str_chars(".jinja2")) {
            1
        } else if ends_with_chars(&chars, &str_chars(".j2")) {
            2
        } else {
            usize::MAX
        }
    }
}

/// How a template's content is stored: directly in memory, or as a path read
/// on demand.
#[derive(Debug, Clone, PartialEq, Eq)]
pub enum ResolvedTemplate {
    /// Template content stored directly in memory.
    Inline(String),
    /// Template loaded from the given path on demand.
    File(String),
}

/// Error from template registry operations.
#[derive(Debug, Clone, PartialEq, Eq)]
pub enum RegistryError {
    /// Two template directories contain files that resolve to the same name.
    Collision {
        name: String,
        existing_path: String,
        existing_dir: String,
        conflicting_path: String,
        conflicting_dir: String,
    },
    /// Template not found in registry.
    NotFound { name: String },
    /// Failed to read a template file from disk.
    ReadError { path: String, message: String },
}

impl RegistryError {
    /// A human-readable description of the error, naming the paths involved.
    pub fn message(&self) -> String {
        match self {
            RegistryError::Collision {
                name,
                existing_path,
                existing_dir,
                conflicting_path,
                conflicting_dir,
            } => {
                let mut m = "Template collision detected for \"".to_owned();
                m.append(name.as_str());
                m.append("\":\n  - ");
                m.append(existing_path.as_str());
                m.append(" (from ");
                m.append(existing_dir.as_str());
                m.append(")\n  - ");
                m.append(conflicting_path.as_str());
                m.append(" (from ");
                m.append(conflicting_dir.as_str());
                m.append(")");
                m
            },
            RegistryError::NotFound { name } => {
                let mut m = "Template not found: \"".to_owned();
                m.append(name.as_str());
                m.append("\"");
                m
            },
            RegistryError::ReadError { path, message } => {
                let mut m = "Failed to read template \"".to_owned();
                m.append(path.as_str());
                m.append("\": ");
                m.append(message.as_str());
                m
            },
        }
    }
}

/// A template's content source at the contracts' level: inline text, or the
/// path of a file-backed template.
pub enum TemplateRef {
    InlineText(Seq<char>),
    FilePath(Seq<char>),
}

/// The contracts' view of a stored template.
pub open spec fn spec_template_view(t: ResolvedTemplate) -> TemplateRef {
    match t {
        ResolvedTemplate::Inline(c) => TemplateRef::InlineText(c@),
        ResolvedTemplate::File(p) => TemplateRef::FilePath(p@),
    }
}

/// Whether `a` sorts at or before `b`: by extension priority.
pub open spec fn spec_file_le(a: TemplateFile, b: TemplateFile) -> bool {
    spec_extension_priority(a.name_with_ext@) <= spec_extension_priority(b.name_with_ext@)
}

/// Stable insertion of a file into a priority-sorted run: after every file
/// that sorts at or before it.
pub open spec fn spec_insert_file(x: TemplateFile, s: Seq<TemplateFile>) -> Seq<TemplateFile>
    decreases s.len(),
{
    if s.len() > 0 && spec_file_le(s[0], x) {
        seq![s[0]] + spec_insert_file(x, s.drop_first())
    } else {
        seq![x] + s
    }
}

/// Stable sort of files by extension priority.
pub open spec fn spec_sort_files(s: Seq<TemplateFile>) -> Seq<TemplateFile>
    decreases s.len(),
{
    if s.len() == 0 {
        Seq::empty()
    } else {
        spec_insert_file(s.last(), spec_sort_files(s.drop_last()))
    }
}

/// If every file before `p` sorts at or before `x` and the file at `p` (if
/// any) does not, inserting `x` puts it exactly at `p`.
proof fn lemma_insert_file_at(x: TemplateFile, s: Seq<TemplateFile>, p: int)
    requires
        0 <= p <= s.len(),
        forall|j: int| 0 <= j < p ==> spec_file_le(#[trigger] s[j], x),
        p < s.len() ==> !spec_file_le(s[p], x),
    ensures
        spec_insert_file(x, s) == s.take(p) + seq![x] + s.skip(p),
    decreases p,
{
    if p == 0 {
        assert(spec_insert_file(x, s) =~= s.take(0) + seq![x] + s.skip(0));
    } else {
        lemma_insert_file_at(x, s.drop_first(), p - 1);
        assert(s.drop_first().take(p - 1) =~= s.take(p).drop_first());
        assert(s.drop_first().skip(p - 1) =~= s.skip(p));
        assert(spec_insert_file(x, s) =~= s.take(p) + seq![x] + s.skip(p));
    }
}

/// One file's registration step: a file whose base name was already seen is
/// skipped when it came from the same directory and collides otherwise; a
/// fresh base name registers the file under both its names and records its
/// source.
pub open spec fn spec_register_step(
    entries: Seq<(Seq<char>, TemplateRef)>,
    sources: Seq<(Seq<char>, (Seq<char>, Seq<char>))>,
    f: TemplateFile,
) -> Result<(Seq<(Seq<char>, TemplateRef)>, Seq<(Seq<char>, (Seq<char>, Seq<char>))>), ()> {
    match spec_assoc(sources, f.name@) {
        Some(ps) => if ps.1 == f.source_dir@ {
            Ok((entries, sources))
        } else {
            Err(())
        },
        None => {
            let e1 = spec_upsert(entries, f.name@, TemplateRef::FilePath(f.absolute_path@));
            let e2 = spec_upsert(e1, f.name_with_ext@, TemplateRef::FilePath(f.absolute_path@));
            let s2 = sources.push((f.name@, (f.absolute_path@, f.source_dir@)));
            Ok((e2, s2))
        },
    }
}

/// The registration of `files` from index `i` on, folded over the steps;
/// `Err` carries the index of the first colliding file.
pub open spec fn spec_register_files(
    entries: Seq<(Seq<char>, TemplateRef)>,
    sources: Seq<(Seq<char>, (Seq<char>, Seq<char>))>,
    files: Seq<TemplateFile>,
    i: int,
) -> Result<(Seq<(Seq<char>, TemplateRef)>, Seq<(Seq<char>, (Seq<char>, Seq<char>))>), int>
    decreases files.len() - i,
{
    if i < 0 || i >= files.len() {
        Ok((entries, sources))
    } else {
        match spec_register_step(entries, sources, files[i]) {
            Ok(es) => spec_register_files(es.0, es.1, files, i + 1),
            Err(u) => Err(i),
        }
    }
}

/// Registering the whole list equals registering a prefix and continuing
/// from the state it reached; an error in the prefix decides the whole run.
proof fn lemma_register_prefix(
    entries: Seq<(Seq<char>, TemplateRef)>,
    sources: Seq<(Seq<char>, (Seq<char>, Seq<char>))>,
    files: Seq<TemplateFile>,
    j: int,
    i: int,
)
    requires
        0 <= j <= i <= files.len(),
    ensures
        ({
            let pre = spec_register_files(entries, sources, files.take(i), j);
            match pre {
                Ok(es) => spec_register_files(entries, sources, files, j) == spec_register_files(
                    es.0,
                    es.1,
                    files,
                    i,
                ),
                Err(ix) => spec_register_files(entries, sources, files, j) == Err::<
                    (
                        Seq<(Seq<char>, TemplateRef)>,
                        Seq<(Seq<char>, (Seq<char>, Seq<char>))>,
                    ),
                    int,
                >(ix),
            }
        }),
    decreases i - j,
{
    if j == i {
    } else {
        assert(files.take(i)[j] == files[j]);
        match spec_register_step(entries, sources, files[j]) {
            Ok(es) => {
                lemma_register_prefix(es.0, es.1, files, j + 1, i);
            },
            Err(u) => {},
        }
    }
}

/// Registry for template resolution from multiple sources, with inline
/// templates shadowing file templates of the same name.
#[derive(Debug, Clone)]
pub struct TemplateRegistry {
    templates: Vec<(String, ResolvedTemplate)>,
    sources: Vec<(String, (String, String))>,
}

impl TemplateRegistry {
    /// The name-to-template view of the registry.
    pub closed spec fn entries(self) -> Seq<(Seq<char>, ResolvedTemplate)> {
        self.templates@.map_values(|p: (String, ResolvedTemplate)| (p.0@, p.1))
    }

    /// The fully text-level view of the registry: each name with its
    /// template's content source.
    pub open spec fn entries_ref(self) -> Seq<(Seq<char>, TemplateRef)> {
        self.entries().map_values(|p: (Seq<char>, ResolvedTemplate)| (p.0, spec_template_view(p.1)))
    }

    /// The collision-tracking view: base name to (path, source directory).
    pub closed spec fn sources_view(self) -> Seq<(Seq<char>, (Seq<char>, Seq<char>))> {
        self.sources@.map_values(|p: (String, (String, String))| (p.0@, (p.1.0@, p.1.1@)))
    }

    /// Well-formedness: names resolve uniquely.
    pub closed spec fn wf(self) -> bool {
        spec_unique_keys(self.entries()) && spec_unique_keys(self.sources_view())
    }

    /// Creates an empty template registry.
    pub fn new() -> (r: TemplateRegistry)
        ensures
            r.wf(),
            r.entries().len() == 0,
            r.sources_view().len() == 0,
    {
        let r = TemplateRegistry { templates: Vec::new(), sources: Vec::new() };
        proof {
            assert(r.entries() =~= Seq::<(Seq<char>, ResolvedTemplate)>::empty());
            assert(r.sources_view() =~= Seq::<(Seq<char>, (Seq<char>, Seq<char>))>::empty());
        }
        r
    }

    /// Index of the entry bound to `name`, if any.
    fn find_template(&self, name: &Vec<char>) -> (r: Option<usize>)
        ensures
            match r {
                Some(i) => i < self.entries().len() && self.entries()[i as int].0 == name@ && (
                forall|j: int| 0 <= j < i ==> (#[trigger] self.entries()[j]).0 != name@),
                None => spec_assoc(self.entries(), name@) is None,
            },
    {
        let mut i: usize = 0;
        while i < self.templates.len()
            invariant
                i <= self.templates@.len(),
                forall|j: int| 0 <= j < i ==> (#[trigger] self.entries()[j]).0 != name@,
            decreases self.templates@.len() - i,
        {
            let key = str_chars(self.templates[i].0.as_str());
            proof {
                assert(self.entries()[i as int].0 == self.templates@[i as int].0@);
            }
            if chars_eq(&key, name) {
                return Some(i);
            }
            i = i + 1;
        }
        proof {
            lemma_assoc_none(self.entries(), name@);
        }
        None
    }

    /// Binds `name` to `value`, replacing any previous binding.
    fn put_template(&mut self, name: &Vec<char>, value: ResolvedTemplate)
        requires
            old(self).wf(),
        ensures
            final(self).wf(),
            spec_assoc(final(self).entries(), name@) == Some(value),
            forall|k: Seq<char>|
                k != name@ ==> #[trigger] spec_assoc(final(self).entries(), k) == spec_assoc(
                    old(self).entries(),
                    k,
                ),
            final(self).sources_view() == old(self).sources_view(),
            final(self).entries().len() <= old(self).entries().len() + 1,
            final(self).entries_ref() == spec_upsert(
                old(self).entries_ref(),
                name@,
                spec_template_view(value),
            ),
    {
        let owned = chars_string(name);
        match self.find_template(name) {
            Some(i) => {
                let ghost before = self.entries();
                let ghost before_ref = self.entries_ref();
                self.templates.remove(i);
                self.templates.insert(i, (owned, value));
                proof {
                    assert(self.entries() =~= before.update(i as int, (name@, value)));
                    assert forall|k: Seq<char>| k != name@ implies #[trigger] spec_assoc(
                        self.entries(),
                        k,
                    ) == spec_assoc(before, k) by {
                        lemma_assoc_update_other(before, i as int, (name@, value), k);
                    }
                    lemma_assoc_at(self.entries(), name@, i as int);
                    assert(self.entries_ref() =~= before_ref.update(
                        i as int,
                        (name@, spec_template_view(value)),
                    ));
                    assert(before_ref[i as int].0 == name@);
                    assert forall|j: int| 0 <= j < i implies (#[trigger] before_ref[j]).0
                        != name@ by {
                        assert(before_ref[j].0 == before[j].0);
                    }
                    lemma_upsert_at(before_ref, name@, spec_template_view(value), i as int);
                }
            },
            None => {
                let ghost before = self.entries();
                let ghost before_ref = self.entries_ref();
                self.templates.push((owned, value));
                proof {
                    assert(self.entries() =~= before.push((name@, value)));
                    lemma_assoc_push(before, (name@, value));
                    assert forall|i: int, j: int|
                        0 <= i < j < self.entries().len() implies (#[trigger] self.entries()[i]).0
                        != (#[trigger] self.entries()[j]).0 by {
                        if j < before.len() {
                        } else {
                            assert(self.entries()[j].0 == name@);
                            if before[i].0 == name@ {
                                lemma_assoc_some(before, i, name@);
                            }
                        }
                    }
                    assert(self.entries_ref() =~= before_ref.push(
                        (name@, spec_template_view(value)),
                    ));
                    lemma_assoc_none_keys(before, name@);
                    assert forall|j: int| 0 <= j < before_ref.len() implies (
                    #[trigger] before_ref[j]).0 != name@ by {
                        assert(before_ref[j].0 == before[j].0);
                    }
                    lemma_upsert_absent(before_ref, name@, spec_template_view(value));
                }
            },
        }
    }

    /// Adds an inline template, shadowing any template of the same name.
    pub fn add_inline(&mut self, name: &str, content: &str)
        requires
            old(self).wf(),
        ensures
            final(self).wf(),
            ({
                match spec_assoc(final(self).entries(), name@) {
                    Some(t) => t matches ResolvedTemplate::Inline(c) && c@ == content@,
                    None => false,
                }
            }),
            forall|k: Seq<char>|
                k != name@ ==> #[trigger] spec_assoc(final(self).entries(), k) == spec_assoc(
                    old(self).entries(),
                    k,
                ),
    {
        let chars = str_chars(name);
        self.put_template(&chars, ResolvedTemplate::Inline(content.to_owned()));
    }

    /// Adds pre-embedded templates, each stored inline; later entries win
    /// over earlier ones of the same name.
    pub fn add_embedded(&mut self, templates: Vec<(String, String)>)
        requires
            old(self).wf(),
        ensures
            final(self).wf(),
    {
        let mut i: usize = 0;
        while i < templates.len()
            invariant
                i <= templates@.len(),
                self.wf(),
            decreases templates@.len() - i,
        {
            self.add_inline(templates[i].0.as_str(), templates[i].1.as_str());
            i = i + 1;
        }
    }

    /// Looks up a template by name (with or without extension, as it was
    /// registered).
    pub fn get(&self, name: &str) -> (r: Result<&ResolvedTemplate, RegistryError>)
        ensures
            match spec_assoc(self.entries(), name@) {
                Some(t) => r matches Ok(rt) && *rt == t,
                None => r matches Err(e) && (e matches RegistryError::NotFound { name: n } && n@
                    == name@),
            },
    {
        let chars = str_chars(name);
        match self.find_template(&chars) {
            Some(i) => {
                proof {
                    lemma_assoc_at(self.entries(), name@, i as int);
                }
                Ok(&self.templates[i].1)
            },
            None => Err(RegistryError::NotFound { name: name.to_owned() }),
        }
    }

    /// The number of registered names (file templates count twice: with and
    /// without extension).
    pub fn len(&self) -> (r: usize)
        ensures
            r == self.entries().len(),
    {
        self.templates.len()
    }

    /// Whether no templates are registered.
    pub fn is_empty(&self) -> (r: bool)
        ensures
            r == (self.entries().len() == 0),
    {
        self.templates.is_empty()
    }

    /// All registered template names.
    pub fn names(&self) -> (r: Vec<String>)
        ensures
            r@.len() == self.entries().len(),
            forall|i: int|
                0 <= i < r@.len() ==> (#[trigger] r@[i])@ == self.entries()[i].0,
    {
        let mut r: Vec<String> = Vec::new();
        let mut i: usize = 0;
        while i < self.templates.len()
            invariant
                i <= self.templates@.len(),
                r@.len() == i,
                forall|j: int| 0 <= j < i ==> (#[trigger] r@[j])@ == self.entries()[j].0,
            decreases self.templates@.len() - i,
        {
            let chars = str_chars(self.templates[i].0.as_str());
            r.push(chars_string(&chars));
            i = i + 1;
        }
        r
    }

    /// Removes every template.
    pub fn clear(&mut self)
        ensures
            final(self).wf(),
            final(self).entries().len() == 0,
            final(self).sources_view().len() == 0,
    {
        self.templates.clear();
        self.sources.clear();
        proof {
            assert(self.entries() =~= Seq::<(Seq<char>, ResolvedTemplate)>::empty());
            assert(self.sources_view() =~= Seq::<(Seq<char>, (Seq<char>, Seq<char>))>::empty());
        }
    }

    /// Index of the source record for `name`, if any.
    fn find_source(&self, name: &Vec<char>) -> (r: Option<usize>)
        ensures
            match r {
                Some(i) => i < self.sources_view().len() && self.sources_view()[i as int].0
                    == name@ && spec_assoc(self.sources_view(), name@) == Some(
                    self.sources_view()[i as int].1,
                ),
                None => spec_assoc(self.sources_view(), name@) is None,
            },
    {
        let mut i: usize = 0;
        while i < self.sources.len()
            invariant
                i <= self.sources@.len(),
                forall|j: int| 0 <= j < i ==> (#[trigger] self.sources_view()[j]).0 != name@,
            decreases self.sources@.len() - i,
        {
            let key = str_chars(self.sources[i].0.as_str());
            proof {
                assert(self.sources_view()[i as int].0 == self.sources@[i as int].0@);
            }
            if chars_eq(&key, name) {
                proof {
                    lemma_assoc_at(self.sources_view(), name@, i as int);
                }
                return Some(i);
            }
            i = i + 1;
        }
        proof {
            lemma_assoc_none(self.sources_view(), name@);
        }
        None
    }

    /// Adds templates discovered by a directory scan. Files are taken in
    /// extension-priority order (stably, so `.tmpl` beats `.jinja2` beats
    /// `.j2` for the extensionless name regardless of input order), each
    /// registered under its base name and its full name; a second file with
    /// a base name already seen is skipped when it came from the same
    /// directory and is a collision error otherwise. The outcome is exactly
    /// the registration fold `spec_register_files` over the sorted files.
    pub fn add_from_files(&mut self, files: Vec<TemplateFile>) -> (r: Result<(), RegistryError>)
        requires
            old(self).wf(),
        ensures
            final(self).wf(),
            ({
                let sorted = spec_sort_files(files@);
                match spec_register_files(
                    old(self).entries_ref(),
                    old(self).sources_view(),
                    sorted,
                    0,
                ) {
                    Ok(es) => r is Ok && final(self).entries_ref() == es.0
                        && final(self).sources_view() == es.1,
                    Err(ix) => r matches Err(e) && (e matches RegistryError::Collision {
                        name,
                        ..
                    } && 0 <= ix < sorted.len() && name@ == sorted[ix].name@),
                }
            }),
    {
        let ghost er0 = self.entries_ref();
        let ghost sv0 = self.sources_view();
        // Stable insertion sort by extension priority, so higher-priority
        // extensions are processed first.
        let ghost orig = files@;
        let mut rest = files;
        let mut sorted: Vec<TemplateFile> = Vec::new();
        while rest.len() > 0
            invariant
                rest@.len() <= orig.len(),
                rest@ == orig.skip(orig.len() - rest@.len()),
                sorted@ == spec_sort_files(orig.take(orig.len() - rest@.len())),
            decreases rest@.len(),
        {
            let ghost done = orig.len() - rest@.len();
            let ghost run = sorted@;
            let x = rest.remove(0);
            proof {
                assert(x == orig[done]);
                assert(rest@ =~= orig.skip(done + 1));
            }
            let xp = x.extension_priority();
            let mut p: usize = 0;
            while p < sorted.len() && sorted[p].extension_priority() <= xp
                invariant
                    p <= sorted@.len(),
                    sorted@ == run,
                    xp as int == spec_extension_priority(x.name_with_ext@),
                    forall|j: int| 0 <= j < p ==> spec_file_le(#[trigger] sorted@[j], x),
                decreases sorted@.len() - p,
            {
                p = p + 1;
            }
            proof {
                lemma_insert_file_at(x, run, p as int);
            }
            sorted.insert(p, x);
            proof {
                assert(sorted@ =~= run.take(p as int) + seq![x] + run.skip(p as int));
                assert(orig.take(done + 1).drop_last() =~= orig.take(done));
                assert(orig.take(done + 1).last() == orig[done]);
            }
        }
        proof {
            assert(orig.take(orig.len() as int) =~= orig);
        }
        let ghost sseq = sorted@;
        let mut i: usize = 0;
        proof {
            assert(sseq.take(0) =~= Seq::<TemplateFile>::empty());
        }
        while i < sorted.len()
            invariant
                i <= sseq.len(),
                sseq == sorted@,
                orig == files@,
                sseq == spec_sort_files(orig),
                er0 == old(self).entries_ref(),
                sv0 == old(self).sources_view(),
                self.wf(),
                spec_register_files(er0, sv0, sseq.take(i as int), 0) == Ok::<
                    (
                        Seq<(Seq<char>, TemplateRef)>,
                        Seq<(Seq<char>, (Seq<char>, Seq<char>))>,
                    ),
                    int,
                >((self.entries_ref(), self.sources_view())),
            decreases sseq.len() - i,
        {
            let ghost er = self.entries_ref();
            let ghost sv = self.sources_view();
            let file = &sorted[i];
            let name_chars = str_chars(file.name.as_str());
            match self.find_source(&name_chars) {
                Some(s) => {
                    // Same directory: a lower-priority extension of a name
                    // already registered; skip it. Different directory: a
                    // cross-directory collision.
                    let existing_dir_chars = str_chars(self.sources[s].1.1.as_str());
                    let file_dir_chars = str_chars(file.source_dir.as_str());
                    proof {
                        assert(sv[s as int].1.1 == self.sources@[s as int].1.1@);
                    }
                    if !chars_eq(&existing_dir_chars, &file_dir_chars) {
                        proof {
                            assert(spec_register_step(er, sv, sseq[i as int]) == Err::<
                                (
                                    Seq<(Seq<char>, TemplateRef)>,
                                    Seq<(Seq<char>, (Seq<char>, Seq<char>))>,
                                ),
                                (),
                            >(()));
                            lemma_register_stop(er0, sv0, sseq, i as int, er, sv);
                        }
                        return Err(
                            RegistryError::Collision {
                                name: file.name.clone(),
                                existing_path: self.sources[s].1.0.clone(),
                                existing_dir: self.sources[s].1.1.clone(),
                                conflicting_path: file.absolute_path.clone(),
                                conflicting_dir: file.source_dir.clone(),
                            },
                        );
                    }
                    proof {
                        assert(spec_register_step(er, sv, sseq[i as int]) == Ok::<
                            (
                                Seq<(Seq<char>, TemplateRef)>,
                                Seq<(Seq<char>, (Seq<char>, Seq<char>))>,
                            ),
                            (),
                        >((er, sv)));
                        lemma_register_extend(er0, sv0, sseq, i as int, er, sv, er, sv);
                    }
                },
                None => {
                    let ghost before = self.sources_view();
                    let resolved = ResolvedTemplate::File(file.absolute_path.clone());
                    let resolved_ext = ResolvedTemplate::File(file.absolute_path.clone());
                    let name_owned = chars_string(&name_chars);
                    self.sources.push(
                        (name_owned, (file.absolute_path.clone(), file.source_dir.clone())),
                    );
                    proof {
                        assert(self.sources_view() =~= before.push(
                            (
                                name_chars@,
                                (
                                    sorted@[i as int].absolute_path@,
                                    sorted@[i as int].source_dir@,
                                ),
                            ),
                        ));
                        assert forall|a: int, b: int|
                            0 <= a < b < self.sources_view().len() implies (
                        #[trigger] self.sources_view()[a]).0 != (
                        #[trigger] self.sources_view()[b]).0 by {
                            if b < before.len() {
                            } else {
                                if before[a].0 == name_chars@ {
                                    lemma_assoc_some(before, a, name_chars@);
                                }
                            }
                        }
                    }
                    self.put_template(&name_chars, resolved);
                    let ext_chars = str_chars(file.name_with_ext.as_str());
                    self.put_template(&ext_chars, resolved_ext);
                    proof {
                        let e1 = spec_upsert(
                            er,
                            sseq[i as int].name@,
                            TemplateRef::FilePath(sseq[i as int].absolute_path@),
                        );
                        let e2 = spec_upsert(
                            e1,
                            sseq[i as int].name_with_ext@,
                            TemplateRef::FilePath(sseq[i as int].absolute_path@),
                        );
                        let s2 = sv.push(
                            (
                                sseq[i as int].name@,
                                (sseq[i as int].absolute_path@, sseq[i as int].source_dir@),
                            ),
                        );
                        assert(self.entries_ref() == e2);
                        assert(self.sources_view() =~= s2);
                        assert(spec_register_step(er, sv, sseq[i as int]) == Ok::<
                            (
                                Seq<(Seq<char>, TemplateRef)>,
                                Seq<(Seq<char>, (Seq<char>, Seq<char>))>,
                            ),
                            (),
                        >((e2, s2)));
                        lemma_register_extend(er0, sv0, sseq, i as int, er, sv, e2, s2);
                    }
                },
            }
            i = i + 1;
        }
        proof {
            assert(sseq.take(sseq.len() as int) =~= sseq);
        }
        Ok(())
    }
}

/// Extending the registered prefix by one file whose step succeeds registers
/// the longer prefix to the step's state.
proof fn lemma_register_extend(
    er0: Seq<(Seq<char>, TemplateRef)>,
    sv0: Seq<(Seq<char>, (Seq<char>, Seq<char>))>,
    files: Seq<TemplateFile>,
    i: int,
    er: Seq<(Seq<char>, TemplateRef)>,
    sv: Seq<(Seq<char>, (Seq<char>, Seq<char>))>,
    er2: Seq<(Seq<char>, TemplateRef)>,
    sv2: Seq<(Seq<char>, (Seq<char>, Seq<char>))>,
)
    requires
        0 <= i < files.len(),
        spec_register_files(er0, sv0, files.take(i), 0) == Ok::<
            (Seq<(Seq<char>, TemplateRef)>, Seq<(Seq<char>, (Seq<char>, Seq<char>))>),
            int,
        >((er, sv)),
        spec_register_step(er, sv, files[i]) == Ok::<
            (Seq<(Seq<char>, TemplateRef)>, Seq<(Seq<char>, (Seq<char>, Seq<char>))>),
            (),
        >((er2, sv2)),
    ensures
        spec_register_files(er0, sv0, files.take(i + 1), 0) == Ok::<
            (Seq<(Seq<char>, TemplateRef)>, Seq<(Seq<char>, (Seq<char>, Seq<char>))>),
            int,
        >((er2, sv2)),
{
    let sub = files.take(i + 1);
    assert(sub.take(i) =~= files.take(i));
    lemma_register_prefix(er0, sv0, sub, 0, i);
    assert(sub[i] == files[i]);
    assert(spec_register_files(er2, sv2, sub, i + 1) == Ok::<
        (Seq<(Seq<char>, TemplateRef)>, Seq<(Seq<char>, (Seq<char>, Seq<char>))>),
        int,
    >((er2, sv2)));
    assert(spec_register_files(er, sv, sub, i) == Ok::<
        (Seq<(Seq<char>, TemplateRef)>, Seq<(Seq<char>, (Seq<char>, Seq<char>))>),
        int,
    >((er2, sv2)));
}

/// A file whose step collides makes the whole registration fail at its
/// index.
proof fn lemma_register_stop(
    er0: Seq<(Seq<char>, TemplateRef)>,
    sv0: Seq<(Seq<char>, (Seq<char>, Seq<char>))>,
    files: Seq<TemplateFile>,
    i: int,
    er: Seq<(Seq<char>, TemplateRef)>,
    sv: Seq<(Seq<char>, (Seq<char>, Seq<char>))>,
)
    requires
        0 <= i < files.len(),
        spec_register_files(er0, sv0, files.take(i), 0) == Ok::<
            (Seq<(Seq<char>, TemplateRef)>, Seq<(Seq<char>, (Seq<char>, Seq<char>))>),
            int,
        >((er, sv)),
        spec_register_step(er, sv, files[i]) == Err::<
            (Seq<(Seq<char>, TemplateRef)>, Seq<(Seq<char>, (Seq<char>, Seq<char>))>),
            (),
        >(()),
    ensures
        spec_register_files(er0, sv0, files, 0) == Err::<
            (Seq<(Seq<char>, TemplateRef)>, Seq<(Seq<char>, (Seq<char>, Seq<char>))>),
            int,
        >(i),
{
    lemma_register_prefix(er0, sv0, files, 0, i);
    assert(spec_register_files(er, sv, files, i) == Err::<
        (Seq<(Seq<char>, TemplateRef)>, Seq<(Seq<char>, (Seq<char>, Seq<char>))>),
        int,
    >(i));
}

} // verus!
