//! Matching codes against the locally loaded CNAS and CMA appendix files.
//!
//! Each loaded file keeps its path, display name and entries. An index lists,
//! in file order, every entry whose code has a non-empty normal form, together
//! with that normal form; lookups go through the index.
use vstd::prelude::*;
use crate::models::{BrowseEntry, FileInfo, MatchResult, QueryStatus, StandardEntry};
use crate::naming::{drop_char, drop_char_exec};
use crate::services::standard_parser::{lowercase, normalize_chars, normalized, to_lowercase};
use crate::text::{
    chars_equal, chars_of, contains_exec, contains_seq, decimal, decimal_chars, join, join_chars,
    push_all, push_str, string_of, views,
};

verus! {

/// The normal form of a code paired with the entry it belongs to.
pub type Keyed = (Seq<char>, StandardEntry);

/// A loaded file as seen by the specification: path, display name, entries.
pub type FileView = (Seq<char>, Seq<char>, Seq<StandardEntry>);

/// The index entries contributed by a list of entries: those whose code has a
/// non-empty normal form, in order.
pub open spec fn keyed(entries: Seq<StandardEntry>) -> Seq<Keyed>
    decreases entries.len(),
{
    if entries.len() == 0 {
        Seq::empty()
    } else {
        let e = entries.last();
        let k = normalized(e.code@);
        keyed(entries.drop_last()) + if k.len() == 0 {
            Seq::<Keyed>::empty()
        } else {
            seq![(k, e)]
        }
    }
}

/// The index of a list of files: the keyed entries of each file, file after file.
pub open spec fn files_index(files: Seq<FileView>) -> Seq<Keyed>
    decreases files.len(),
{
    if files.len() == 0 {
        Seq::empty()
    } else {
        files_index(files.drop_last()) + keyed(files.last().2)
    }
}

/// A file with this path is loaded.
pub open spec fn path_loaded(files: Seq<FileView>, path: Seq<char>) -> bool {
    exists|i: int| 0 <= i < files.len() && files[i].0 == path
}

/// Some index entry has this key.
pub open spec fn has_key(idx: Seq<Keyed>, key: Seq<char>) -> bool {
    exists|i: int| 0 <= i < idx.len() && idx[i].0 == key
}

/// The entries of the index whose key is `key`, in order.
pub open spec fn with_key(idx: Seq<Keyed>, key: Seq<char>) -> Seq<StandardEntry>
    decreases idx.len(),
{
    if idx.len() == 0 {
        Seq::empty()
    } else {
        with_key(idx.drop_last(), key) + if idx.last().0 == key {
            seq![idx.last().1]
        } else {
            Seq::<StandardEntry>::empty()
        }
    }
}

/// Two normal forms are related when one contains the other.
pub open spec fn related(key: Seq<char>, target: Seq<char>) -> bool {
    contains_seq(key, target) || contains_seq(target, key)
}

/// The keys of an index, each once, in the order in which they first occur.
pub open spec fn keys_in_order(idx: Seq<Keyed>) -> Seq<Seq<char>>
    decreases idx.len(),
{
    if idx.len() == 0 {
        Seq::empty()
    } else {
        let ks = keys_in_order(idx.drop_last());
        if ks.contains(idx.last().0) {
            ks
        } else {
            ks.push(idx.last().0)
        }
    }
}

/// For each of `keys` related to `target`, in turn, the entries with that key.
pub open spec fn grouped_related(idx: Seq<Keyed>, keys: Seq<Seq<char>>, target: Seq<char>) -> Seq<
    StandardEntry,
>
    decreases keys.len(),
{
    if keys.len() == 0 {
        Seq::empty()
    } else {
        grouped_related(idx, keys.drop_last(), target) + if related(keys.last(), target) {
            with_key(idx, keys.last())
        } else {
            Seq::<StandardEntry>::empty()
        }
    }
}

/// The entries of the index whose key is related to `target`, grouped by key:
/// the keys in the order in which they first occur, and under each key its
/// entries in order.
pub open spec fn related_entries(idx: Seq<Keyed>, target: Seq<char>) -> Seq<StandardEntry> {
    grouped_related(idx, keys_in_order(idx), target)
}

/// At most the first ten of a list.
pub open spec fn first_ten(s: Seq<StandardEntry>) -> Seq<StandardEntry> {
    if s.len() > 10 {
        s.take(10)
    } else {
        s
    }
}

/// The line shown for an entry: `CODE NAME`.
pub open spec fn entry_line(e: StandardEntry) -> Seq<char> {
    e.code@ + seq![' '] + e.name@
}

pub open spec fn entry_lines(es: Seq<StandardEntry>) -> Seq<Seq<char>> {
    es.map_values(|e: StandardEntry| entry_line(e))
}

/// What a lookup of `target` (a normal form) in an index answers, given the
/// name of the source for the message shown when nothing is loaded.
pub open spec fn lookup_outcome(idx: Seq<Keyed>, target: Seq<char>, source: Seq<char>) -> (
    QueryStatus,
    Seq<char>,
) {
    let exact = with_key(idx, target);
    let near = first_ten(related_entries(idx, target));
    if idx.len() == 0 {
        (QueryStatus::Error, "未加载"@ + source + "文件，请先选择文件"@)
    } else if exact.len() == 1 {
        (QueryStatus::Exact, "匹配唯一结果。\n对应附表标准："@ + entry_line(exact[0]))
    } else if exact.len() > 1 {
        (
            QueryStatus::Exact,
            "匹配到 "@ + decimal(exact.len()) + " 条结果。\n"@ + join(entry_lines(exact), seq!['\n']),
        )
    } else if near.len() > 0 {
        (QueryStatus::Partial, "未完全匹配。\n附表中相近标准：\n"@ + join(entry_lines(near), seq!['\n']))
    } else {
        (QueryStatus::Nomatch, "无匹配"@)
    }
}

/// What a user sees of loaded files: each file's name and entry count.
pub open spec fn infos_match(r: Seq<FileInfo>, files: Seq<FileView>) -> bool {
    &&& r.len() == files.len()
    &&& forall|i: int| 0 <= i < r.len() ==> #[trigger] r[i].name@ == files[i].1 && r[i].count == files[i].2.len()
}

/// The browse rows of a list of files, tagged with the source type.
pub open spec fn browse_rows(files: Seq<FileView>, kind: Seq<char>) -> Seq<BrowseView>
    decreases files.len(),
{
    if files.len() == 0 {
        Seq::empty()
    } else {
        let f = files.last();
        browse_rows(files.drop_last(), kind) + f.2.map_values(
            |e: StandardEntry| (e.code@, e.name@, e.page, e.sheet@, f.1, f.0, kind),
        )
    }
}

/// A browse entry as the specification sees it.
pub type BrowseView = (Seq<char>, Seq<char>, Option<u32>, Seq<char>, Seq<char>, Seq<char>, Seq<char>);

pub open spec fn browse_view(b: BrowseEntry) -> BrowseView {
    (b.code@, b.name@, b.page, b.sheet@, b.source_name@, b.source_path@, b.source_type@)
}

struct LoadedFile {
    path: String,
    name: String,
    entries: Vec<StandardEntry>,
}

struct IndexEntry {
    key: Vec<char>,
    entry: StandardEntry,
}

spec fn file_view(f: LoadedFile) -> FileView {
    (f.path@, f.name@, f.entries@)
}

spec fn files_view(fs: Seq<LoadedFile>) -> Seq<FileView> {
    fs.map_values(|f: LoadedFile| file_view(f))
}

spec fn index_matches(idx: Seq<IndexEntry>, model: Seq<Keyed>) -> bool {
    &&& idx.len() == model.len()
    &&& forall|i: int| 0 <= i < idx.len() ==> #[trigger] idx[i].key@ == model[i].0 && idx[i].entry == model[i].1
}

/// The CNAS and CMA appendix files that are loaded, and their indexes.
pub struct LocalFileMatcher {
    cnas_files: Vec<LoadedFile>,
    cma_files: Vec<LoadedFile>,
    cnas_index: Vec<IndexEntry>,
    cma_index: Vec<IndexEntry>,
}

impl LocalFileMatcher {
    /// The loaded CNAS files.
    pub closed spec fn cnas(&self) -> Seq<FileView> {
        files_view(self.cnas_files@)
    }

    /// The loaded CMA files.
    pub closed spec fn cma(&self) -> Seq<FileView> {
        files_view(self.cma_files@)
    }

    /// Each index lists exactly the keyed entries of its files.
    #[verifier::type_invariant]
    spec fn wf(&self) -> bool {
        &&& index_matches(self.cnas_index@, files_index(self.cnas()))
        &&& index_matches(self.cma_index@, files_index(self.cma()))
    }

    /// A matcher with no file loaded.
    pub fn new() -> (r: Self)
        ensures
            r.cnas() == Seq::<FileView>::empty(),
            r.cma() == Seq::<FileView>::empty(),
    {
        let r = LocalFileMatcher {
            cnas_files: Vec::new(),
            cma_files: Vec::new(),
            cnas_index: Vec::new(),
            cma_index: Vec::new(),
        };
        proof {
            assert(r.cnas() =~= Seq::<FileView>::empty());
            assert(r.cma() =~= Seq::<FileView>::empty());
        }
        r
    }

    /// Whether a CNAS file with this path is loaded.
    pub fn is_cnas_loaded(&self, path: &str) -> (r: bool)
        ensures
            r == path_loaded(self.cnas(), path@),
    {
        is_loaded(&self.cnas_files, path)
    }

    /// Whether a CMA file with this path is loaded.
    pub fn is_cma_loaded(&self, path: &str) -> (r: bool)
        ensures
            r == path_loaded(self.cma(), path@),
    {
        is_loaded(&self.cma_files, path)
    }

    /// Adds a CNAS file, given its path, its display name and the outcome of
    /// parsing it. A path that is already loaded is not added again; a parse
    /// error is handed back and changes nothing. Answers the loaded CNAS files.
    pub fn add_cnas(
        &mut self,
        path: &str,
        name: &str,
        parsed: Result<Vec<StandardEntry>, String>,
    ) -> (r: Result<Vec<FileInfo>, String>)
        ensures
            final(self).cma() == old(self).cma(),
            final(self).cnas() == added(old(self).cnas(), path@, name@, parsed),
            add_outcome(old(self).cnas(), path@, parsed, r),
            r matches Ok(infos) ==> infos_match(infos@, final(self).cnas()),
    {
        let mut cur = LocalFileMatcher::new();
        std::mem::swap(&mut cur, self);
        proof {
            use_type_invariant(&cur);
        }
        let LocalFileMatcher { mut cnas_files, cma_files, cnas_index: _, cma_index } = cur;
        let res = parse_and_add(path, name, parsed, &mut cnas_files);
        let cnas_index = rebuild_index(&cnas_files);
        let infos = file_infos(&cnas_files);
        *self = LocalFileMatcher { cnas_files, cma_files, cnas_index, cma_index };
        match res {
            Ok(()) => Ok(infos),
            Err(e) => Err(e),
        }
    }

    /// Adds a CMA file; see `add_cnas`.
    pub fn add_cma(
        &mut self,
        path: &str,
        name: &str,
        parsed: Result<Vec<StandardEntry>, String>,
    ) -> (r: Result<Vec<FileInfo>, String>)
        ensures
            final(self).cnas() == old(self).cnas(),
            final(self).cma() == added(old(self).cma(), path@, name@, parsed),
            add_outcome(old(self).cma(), path@, parsed, r),
            r matches Ok(infos) ==> infos_match(infos@, final(self).cma()),
    {
        let mut cur = LocalFileMatcher::new();
        std::mem::swap(&mut cur, self);
        proof {
            use_type_invariant(&cur);
        }
        let LocalFileMatcher { cnas_files, mut cma_files, cnas_index, cma_index: _ } = cur;
        let res = parse_and_add(path, name, parsed, &mut cma_files);
        let cma_index = rebuild_index(&cma_files);
        let infos = file_infos(&cma_files);
        *self = LocalFileMatcher { cnas_files, cma_files, cnas_index, cma_index };
        match res {
            Ok(()) => Ok(infos),
            Err(e) => Err(e),
        }
    }

    /// Removes the CNAS file at `index` (nothing when there is none) and
    /// answers the loaded CNAS files.
    pub fn remove_cnas(&mut self, index: usize) -> (r: Vec<FileInfo>)
        ensures
            final(self).cma() == old(self).cma(),
            final(self).cnas() == removed(old(self).cnas(), index as int),
            infos_match(r@, final(self).cnas()),
    {
        if index < self.cnas_files.len() {
            let mut cur = LocalFileMatcher::new();
            std::mem::swap(&mut cur, self);
            proof {
                use_type_invariant(&cur);
            }
            let LocalFileMatcher { mut cnas_files, cma_files, cnas_index: _, cma_index } = cur;
            let ghost before = files_view(cnas_files@);
            cnas_files.remove(index);
            proof {
                assert(files_view(cnas_files@) =~= removed(before, index as int));
            }
            let cnas_index = rebuild_index(&cnas_files);
            *self = LocalFileMatcher { cnas_files, cma_files, cnas_index, cma_index };
        }
        file_infos(&self.cnas_files)
    }

    /// Removes the CMA file at `index`; see `remove_cnas`.
    pub fn remove_cma(&mut self, index: usize) -> (r: Vec<FileInfo>)
        ensures
            final(self).cnas() == old(self).cnas(),
            final(self).cma() == removed(old(self).cma(), index as int),
            infos_match(r@, final(self).cma()),
    {
        if index < self.cma_files.len() {
            let mut cur = LocalFileMatcher::new();
            std::mem::swap(&mut cur, self);
            proof {
                use_type_invariant(&cur);
            }
            let LocalFileMatcher { cnas_files, mut cma_files, cnas_index, cma_index: _ } = cur;
            let ghost before = files_view(cma_files@);
            cma_files.remove(index);
            proof {
                assert(files_view(cma_files@) =~= removed(before, index as int));
            }
            let cma_index = rebuild_index(&cma_files);
            *self = LocalFileMatcher { cnas_files, cma_files, cnas_index, cma_index };
        }
        file_infos(&self.cma_files)
    }

    /// The name and entry count of each loaded CNAS file.
    pub fn cnas_infos(&self) -> (r: Vec<FileInfo>)
        ensures
            infos_match(r@, self.cnas()),
    {
        file_infos(&self.cnas_files)
    }

    /// The name and entry count of each loaded CMA file.
    pub fn cma_infos(&self) -> (r: Vec<FileInfo>)
        ensures
            infos_match(r@, self.cma()),
    {
        file_infos(&self.cma_files)
    }

    /// Whether the code, normalised, is the normal form of a code in some
    /// loaded CNAS or CMA file.
    pub fn is_in_local_files(&self, std_code: &str) -> (r: bool)
        ensures
            r == (has_key(files_index(self.cnas()), normalized(std_code@)) || has_key(
                files_index(self.cma()),
                normalized(std_code@),
            )),
    {
        proof {
            use_type_invariant(self);
        }
        let norm = normalize_chars(std_code);
        index_has_key(&self.cnas_index, &norm) || index_has_key(&self.cma_index, &norm)
    }

    /// Looks the code up in the CNAS files.
    pub fn query_cnas(&self, std_code: &str) -> (r: MatchResult)
        ensures
            (r.status, r.message@) == lookup_outcome(
                files_index(self.cnas()),
                normalized(std_code@),
                "CNAS附表"@,
            ),
    {
        proof {
            use_type_invariant(self);
        }
        query_index(&self.cnas_index, std_code, "CNAS附表")
    }

    /// Looks the code up in the CMA files.
    pub fn query_cma(&self, std_code: &str) -> (r: MatchResult)
        ensures
            (r.status, r.message@) == lookup_outcome(
                files_index(self.cma()),
                normalized(std_code@),
                "CMA附表"@,
            ),
    {
        proof {
            use_type_invariant(self);
        }
        query_index(&self.cma_index, std_code, "CMA附表")
    }

    /// Looks a name up in the CNAS files.
    pub fn query_cnas_by_name(&self, name: &str) -> (r: MatchResult)
        ensures
            (r.status, r.message@) == name_outcome(self.cnas(), name@, "CNAS附表"@),
    {
        query_files_by_name(&self.cnas_files, name, "CNAS附表")
    }

    /// Looks a name up in the CMA files.
    pub fn query_cma_by_name(&self, name: &str) -> (r: MatchResult)
        ensures
            (r.status, r.message@) == name_outcome(self.cma(), name@, "CMA附表"@),
    {
        query_files_by_name(&self.cma_files, name, "CMA附表")
    }

    /// Every entry of every loaded file, CNAS files first, with its source.
    pub fn get_all_entries(&self) -> (r: Vec<BrowseEntry>)
        ensures
            r@.map_values(|b: BrowseEntry| browse_view(b)) == browse_rows(self.cnas(), "cnas"@)
                + browse_rows(self.cma(), "cma"@),
    {
        let mut result: Vec<BrowseEntry> = Vec::new();
        append_browse(&mut result, &self.cnas_files, "cnas");
        append_browse(&mut result, &self.cma_files, "cma");
        proof {
            assert(result@.map_values(|b: BrowseEntry| browse_view(b)) =~= browse_rows(
                self.cnas(),
                "cnas"@,
            ) + browse_rows(self.cma(), "cma"@));
        }
        result
    }
}

/// A name as it is compared: lowercased, without spaces.
pub open spec fn name_key(s: Seq<char>) -> Seq<char> {
    drop_char(lowercase(s), ' ')
}

/// The entries whose name, compared as `name_key`, contains `key`, in order.
pub open spec fn entries_named(es: Seq<StandardEntry>, key: Seq<char>) -> Seq<StandardEntry>
    decreases es.len(),
{
    if es.len() == 0 {
        Seq::empty()
    } else {
        entries_named(es.drop_last(), key) + if contains_seq(name_key(es.last().name@), key) {
            seq![es.last()]
        } else {
            Seq::<StandardEntry>::empty()
        }
    }
}

/// The entries of the files whose name contains `key`, file after file.
pub open spec fn files_named(files: Seq<FileView>, key: Seq<char>) -> Seq<StandardEntry>
    decreases files.len(),
{
    if files.len() == 0 {
        Seq::empty()
    } else {
        files_named(files.drop_last(), key) + entries_named(files.last().2, key)
    }
}

/// What a lookup by name answers: the entries whose name contains the name
/// asked for, ignoring spaces and case, at most ten of them listed.
pub open spec fn name_outcome(files: Seq<FileView>, name: Seq<char>, source: Seq<char>) -> (
    QueryStatus,
    Seq<char>,
) {
    let hits = files_named(files, name_key(name));
    if files.len() == 0 {
        (QueryStatus::Error, "未加载"@ + source + "文件，请先选择文件"@)
    } else if hits.len() == 0 {
        (QueryStatus::Nomatch, "无匹配"@)
    } else {
        (
            QueryStatus::Partial,
            "按名称找到 "@ + decimal(hits.len()) + " 条相关标准：\n"@ + join(
                entry_lines(first_ten(hits)),
                seq!['\n'],
            ),
        )
    }
}

/// The files after an attempt to add one.
pub open spec fn added(
    files: Seq<FileView>,
    path: Seq<char>,
    name: Seq<char>,
    parsed: Result<Vec<StandardEntry>, String>,
) -> Seq<FileView> {
    if path_loaded(files, path) {
        files
    } else {
        match parsed {
            Ok(entries) => files.push((path, name, entries@)),
            Err(_) => files,
        }
    }
}

/// What an attempt to add a file answers: the parse error when the path was not
/// loaded and parsing failed, the file list otherwise.
pub open spec fn add_outcome(
    files: Seq<FileView>,
    path: Seq<char>,
    parsed: Result<Vec<StandardEntry>, String>,
    r: Result<Vec<FileInfo>, String>,
) -> bool {
    if !path_loaded(files, path) && parsed is Err {
        r == Err::<Vec<FileInfo>, String>(parsed->Err_0)
    } else {
        r is Ok
    }
}

/// The files after removing the one at `index`, when there is one.
pub open spec fn removed(files: Seq<FileView>, index: int) -> Seq<FileView> {
    if 0 <= index < files.len() {
        files.remove(index)
    } else {
        files
    }
}

fn is_loaded(files: &Vec<LoadedFile>, path: &str) -> (r: bool)
    ensures
        r == path_loaded(files_view(files@), path@),
{
    let p = chars_of(path);
    let mut i: usize = 0;
    while i < files.len()
        invariant
            i <= files.len(),
            p@ == path@,
            forall|j: int| 0 <= j < i ==> files@[j].path@ != path@,
        decreases files.len() - i,
    {
        let fp = chars_of(files[i].path.as_str());
        if chars_equal(&fp, &p) {
            proof {
                assert(files_view(files@)[i as int].0 == path@);
            }
            return true;
        }
        i = i + 1;
    }
    proof {
        assert forall|j: int| 0 <= j < files_view(files@).len() implies files_view(files@)[j].0
            != path@ by {
            assert(files_view(files@)[j] == file_view(files@[j]));
        }
    }
    false
}

fn parse_and_add(
    path: &str,
    name: &str,
    parsed: Result<Vec<StandardEntry>, String>,
    files: &mut Vec<LoadedFile>,
) -> (r: Result<(), String>)
    ensures
        files_view(final(files)@) == added(files_view(old(files)@), path@, name@, parsed),
        !path_loaded(files_view(old(files)@), path@) && parsed is Err ==> r == Err::<(), String>(
            parsed->Err_0,
        ),
        path_loaded(files_view(old(files)@), path@) || parsed is Ok ==> r is Ok,
{
    if is_loaded(files, path) {
        return Ok(());
    }
    match parsed {
        Ok(entries) => {
            let f = LoadedFile { path: String::from_str(path), name: String::from_str(name), entries };
            files.push(f);
            proof {
                assert(files_view(files@) =~= files_view(old(files)@).push(file_view(f)));
            }
            Ok(())
        },
        Err(e) => Err(e),
    }
}

fn rebuild_index(files: &Vec<LoadedFile>) -> (r: Vec<IndexEntry>)
    ensures
        index_matches(r@, files_index(files_view(files@))),
{
    let mut index: Vec<IndexEntry> = Vec::new();
    let mut fi: usize = 0;
    while fi < files.len()
        invariant
            fi <= files.len(),
            index_matches(index@, files_index(files_view(files@).take(fi as int))),
        decreases files.len() - fi,
    {
        let entries = &files[fi].entries;
        let ghost before = files_index(files_view(files@).take(fi as int));
        let mut ei: usize = 0;
        while ei < entries.len()
            invariant
                ei <= entries.len(),
                fi < files.len(),
                entries == &files@[fi as int].entries,
                index_matches(index@, before + keyed(entries@.take(ei as int))),
            decreases entries.len() - ei,
        {
            let e = &entries[ei];
            let key = normalize_chars(e.code.as_str());
            proof {
                assert(entries@.take(ei + 1).drop_last() == entries@.take(ei as int));
                assert(entries@.take(ei + 1).last() == *e);
            }
            if key.len() > 0 {
                index.push(IndexEntry { key, entry: e.duplicate() });
                proof {
                    assert(before + keyed(entries@.take(ei + 1)) == (before + keyed(
                        entries@.take(ei as int),
                    )).push((normalized(e.code@), *e)));
                }
            } else {
                proof {
                    assert(before + keyed(entries@.take(ei + 1)) == before + keyed(
                        entries@.take(ei as int),
                    ));
                }
            }
            ei = ei + 1;
        }
        proof {
            assert(entries@.take(entries@.len() as int) == entries@);
            let fv = files_view(files@);
            assert(fv.take(fi + 1).drop_last() == fv.take(fi as int));
            assert(fv.take(fi + 1).last().2 == entries@);
        }
        fi = fi + 1;
    }
    proof {
        assert(files_view(files@).take(files@.len() as int) == files_view(files@));
    }
    index
}

fn file_infos(files: &Vec<LoadedFile>) -> (r: Vec<FileInfo>)
    ensures
        infos_match(r@, files_view(files@)),
{
    let mut r: Vec<FileInfo> = Vec::new();
    let mut i: usize = 0;
    while i < files.len()
        invariant
            i <= files.len(),
            r@.len() == i,
            forall|j: int| 0 <= j < i ==> #[trigger] r@[j].name@ == files@[j].name@ && r@[j].count
                == files@[j].entries@.len(),
        decreases files.len() - i,
    {
        let info = FileInfo { name: files[i].name.clone(), count: files[i].entries.len() };
        let ghost before = r@;
        r.push(info);
        proof {
            assert forall|j: int| 0 <= j < i + 1 implies #[trigger] r@[j].name@ == files@[j].name@
                && r@[j].count == files@[j].entries@.len() by {
                if j < i {
                    assert(r@[j] == before[j]);
                }
            }
        }
        i = i + 1;
    }
    r
}

fn index_has_key(index: &Vec<IndexEntry>, key: &Vec<char>) -> (r: bool)
    ensures
        forall|model: Seq<Keyed>| index_matches(index@, model) ==> r == has_key(model, key@),
{
    let mut i: usize = 0;
    while i < index.len()
        invariant
            i <= index.len(),
            forall|j: int| 0 <= j < i ==> index@[j].key@ != key@,
        decreases index.len() - i,
    {
        if chars_equal(&index[i].key, key) {
            proof {
                assert forall|model: Seq<Keyed>| index_matches(index@, model) implies has_key(
                    model,
                    key@,
                ) by {
                    assert(index@[i as int].key@ == model[i as int].0);
                }
            }
            return true;
        }
        i = i + 1;
    }
    proof {
        assert forall|model: Seq<Keyed>| index_matches(index@, model) implies !has_key(
            model,
            key@,
        ) by {
            assert forall|j: int| 0 <= j < model.len() implies model[j].0 != key@ by {
                assert(index@[j].key@ == model[j].0);
            }
        }
    }
    false
}

fn entry_line_chars(e: &StandardEntry) -> (r: Vec<char>)
    ensures
        r@ == entry_line(*e),
{
    let mut r = chars_of(e.code.as_str());
    r.push(' ');
    let n = chars_of(e.name.as_str());
    push_all(&mut r, &n);
    r
}

fn lines_of(es: &Vec<StandardEntry>) -> (r: Vec<Vec<char>>)
    ensures
        views(r@) == entry_lines(es@),
{
    let mut r: Vec<Vec<char>> = Vec::new();
    let mut i: usize = 0;
    while i < es.len()
        invariant
            i <= es.len(),
            views(r@) == entry_lines(es@.take(i as int)),
        decreases es.len() - i,
    {
        let line = entry_line_chars(&es[i]);
        let ghost before = r@;
        r.push(line);
        proof {
            assert(views(r@) =~= views(before).push(entry_line(es@[i as int])));
            assert(entry_lines(es@.take(i + 1)) =~= entry_lines(es@.take(i as int)).push(
                entry_line(es@[i as int]),
            ));
        }
        i = i + 1;
    }
    proof {
        assert(es@.take(es@.len() as int) == es@);
    }
    r
}

spec fn index_model(idx: Seq<IndexEntry>) -> Seq<Keyed> {
    idx.map_values(|x: IndexEntry| (x.key@, x.entry))
}

/// The entries of the index with this key, in order.
fn entries_with_key(index: &Vec<IndexEntry>, key: &Vec<char>) -> (r: Vec<StandardEntry>)
    ensures
        r@ == with_key(index_model(index@), key@),
{
    let ghost model = index_model(index@);
    let mut r: Vec<StandardEntry> = Vec::new();
    let mut i: usize = 0;
    while i < index.len()
        invariant
            i <= index.len(),
            model == index_model(index@),
            r@ == with_key(model.take(i as int), key@),
        decreases index.len() - i,
    {
        proof {
            assert(model.take(i + 1).drop_last() == model.take(i as int));
            assert(model.take(i + 1).last() == (index@[i as int].key@, index@[i as int].entry));
        }
        if chars_equal(&index[i].key, key) {
            r.push(index[i].entry.duplicate());
        }
        i = i + 1;
    }
    proof {
        assert(model.take(index@.len() as int) == model);
    }
    r
}

fn has_chars(ks: &Vec<Vec<char>>, k: &Vec<char>) -> (r: bool)
    ensures
        r == views(ks@).contains(k@),
{
    let mut i: usize = 0;
    while i < ks.len()
        invariant
            i <= ks.len(),
            forall|j: int| 0 <= j < i ==> ks@[j]@ != k@,
        decreases ks.len() - i,
    {
        if chars_equal(&ks[i], k) {
            proof {
                assert(views(ks@)[i as int] == k@);
            }
            return true;
        }
        i = i + 1;
    }
    proof {
        assert forall|j: int| 0 <= j < views(ks@).len() implies views(ks@)[j] != k@ by {
            assert(views(ks@)[j] == ks@[j]@);
        }
    }
    false
}

/// The keys of the index, each once, in the order in which they first occur.
fn index_keys(index: &Vec<IndexEntry>) -> (r: Vec<Vec<char>>)
    ensures
        views(r@) == keys_in_order(index_model(index@)),
{
    let ghost model = index_model(index@);
    let mut r: Vec<Vec<char>> = Vec::new();
    let mut i: usize = 0;
    while i < index.len()
        invariant
            i <= index.len(),
            model == index_model(index@),
            views(r@) == keys_in_order(model.take(i as int)),
        decreases index.len() - i,
    {
        proof {
            assert(model.take(i + 1).drop_last() == model.take(i as int));
            assert(model.take(i + 1).last() == (index@[i as int].key@, index@[i as int].entry));
        }
        if !has_chars(&r, &index[i].key) {
            let ghost before = r@;
            r.push(index[i].key.clone());
            proof {
                assert(views(r@) == views(before).push(index@[i as int].key@));
            }
        }
        i = i + 1;
    }
    proof {
        assert(model.take(index@.len() as int) == model);
    }
    r
}

fn query_index(index: &Vec<IndexEntry>, std_code: &str, source_name: &str) -> (r: MatchResult)
    ensures
        forall|model: Seq<Keyed>|
            index_matches(index@, model) ==> (r.status, r.message@) == lookup_outcome(
                model,
                normalized(std_code@),
                source_name@,
            ),
{
    let ghost model = index_model(index@);
    proof {
        assert forall|m: Seq<Keyed>| index_matches(index@, m) implies m == model by {
            assert(m =~= model);
        }
    }
    if index.len() == 0 {
        let mut msg = chars_of("未加载");
        let src = chars_of(source_name);
        push_all(&mut msg, &src);
        let tail = chars_of("文件，请先选择文件");
        push_all(&mut msg, &tail);
        let text = string_of(&msg);
        return MatchResult { status: QueryStatus::Error, message: text };
    }
    let target = normalize_chars(std_code);
    let exact = entries_with_key(index, &target);
    let keys = index_keys(index);
    let mut near: Vec<StandardEntry> = Vec::new();
    let mut j: usize = 0;
    while j < keys.len()
        invariant
            j <= keys.len(),
            model == index_model(index@),
            views(keys@) == keys_in_order(model),
            target@ == normalized(std_code@),
            near@ == grouped_related(model, views(keys@).take(j as int), target@),
        decreases keys.len() - j,
    {
        let key = &keys[j];
        proof {
            assert(views(keys@).take(j + 1).drop_last() == views(keys@).take(j as int));
            assert(views(keys@).take(j + 1).last() == key@);
        }
        if contains_exec(key, &target) || contains_exec(&target, key) {
            let group = entries_with_key(index, key);
            let ghost before = near@;
            let mut g: usize = 0;
            while g < group.len()
                invariant
                    g <= group.len(),
                    near@ == before + group@.take(g as int),
                decreases group.len() - g,
            {
                near.push(group[g].duplicate());
                proof {
                    assert(group@.take(g + 1) == group@.take(g as int).push(group@[g as int]));
                }
                g = g + 1;
            }
            proof {
                assert(group@.take(group@.len() as int) == group@);
            }
        }
        j = j + 1;
    }
    proof {
        assert(views(keys@).take(keys@.len() as int) == views(keys@));
    }
    if exact.len() == 1 {
        let mut msg = chars_of("匹配唯一结果。\n对应附表标准：");
        let line = entry_line_chars(&exact[0]);
        push_all(&mut msg, &line);
        return MatchResult { status: QueryStatus::Exact, message: string_of(&msg) };
    }
    if exact.len() > 1 {
        let mut msg = chars_of("匹配到 ");
        let count = decimal_chars(exact.len() as u64);
        push_all(&mut msg, &count);
        let mid = chars_of(" 条结果。\n");
        push_all(&mut msg, &mid);
        let lines = lines_of(&exact);
        let mut sep: Vec<char> = Vec::new();
        sep.push('\n');
        let body = join_chars(&lines, &sep);
        push_all(&mut msg, &body);
        return MatchResult { status: QueryStatus::Exact, message: string_of(&msg) };
    }
    if near.len() > 0 {
        if near.len() > 10 {
            near.truncate(10);
        }
        proof {
            assert(near@ == first_ten(related_entries(model, target@)));
        }
        let mut msg = chars_of("未完全匹配。\n附表中相近标准：\n");
        let lines = lines_of(&near);
        let mut sep: Vec<char> = Vec::new();
        sep.push('\n');
        let body = join_chars(&lines, &sep);
        push_all(&mut msg, &body);
        return MatchResult { status: QueryStatus::Partial, message: string_of(&msg) };
    }
    MatchResult { status: QueryStatus::Nomatch, message: String::from_str("无匹配") }
}

fn append_browse(out: &mut Vec<BrowseEntry>, files: &Vec<LoadedFile>, kind: &str)
    ensures
        final(out)@.map_values(|b: BrowseEntry| browse_view(b)) == old(out)@.map_values(
            |b: BrowseEntry| browse_view(b),
        ) + browse_rows(files_view(files@), kind@),
{
    let mut fi: usize = 0;
    while fi < files.len()
        invariant
            fi <= files.len(),
            out@.map_values(|b: BrowseEntry| browse_view(b)) == old(out)@.map_values(
                |b: BrowseEntry| browse_view(b),
            ) + browse_rows(files_view(files@).take(fi as int), kind@),
        decreases files.len() - fi,
    {
        let f = &files[fi];
        let ghost base = out@.map_values(|b: BrowseEntry| browse_view(b));
        let mut ei: usize = 0;
        while ei < f.entries.len()
            invariant
                ei <= f.entries.len(),
                fi < files.len(),
                f == &files@[fi as int],
                out@.map_values(|b: BrowseEntry| browse_view(b)) == base + f.entries@.take(
                    ei as int,
                ).map_values(
                    |e: StandardEntry| (e.code@, e.name@, e.page, e.sheet@, f.name@, f.path@, kind@),
                ),
            decreases f.entries.len() - ei,
        {
            let e = &f.entries[ei];
            let b = BrowseEntry {
                code: e.code.clone(),
                name: e.name.clone(),
                page: e.page,
                sheet: e.sheet.clone(),
                source_name: f.name.clone(),
                source_path: f.path.clone(),
                source_type: String::from_str(kind),
            };
            let ghost before = out@;
            out.push(b);
            proof {
                let g = |e: StandardEntry| (e.code@, e.name@, e.page, e.sheet@, f.name@, f.path@, kind@);
                assert(out@.map_values(|b: BrowseEntry| browse_view(b)) =~= before.map_values(
                    |b: BrowseEntry| browse_view(b),
                ).push(browse_view(b)));
                assert(browse_view(b) == g(*e));
                assert(f.entries@.take(ei + 1).map_values(g) =~= f.entries@.take(ei as int).map_values(
                    g,
                ).push(g(*e)));
            }
            ei = ei + 1;
        }
        proof {
            let fv = files_view(files@);
            assert(f.entries@.take(f.entries@.len() as int) == f.entries@);
            assert(fv.take(fi + 1).drop_last() == fv.take(fi as int));
            assert(fv.take(fi + 1).last() == file_view(*f));
        }
        fi = fi + 1;
    }
    proof {
        assert(files_view(files@).take(files@.len() as int) == files_view(files@));
    }
}

fn name_key_exec(s: &str) -> (r: Vec<char>)
    ensures
        r@ == name_key(s@),
{
    let lower = to_lowercase(s);
    let chars = chars_of(lower.as_str());
    drop_char_exec(&chars, ' ')
}

fn query_files_by_name(files: &Vec<LoadedFile>, name: &str, source_name: &str) -> (r: MatchResult)
    ensures
        (r.status, r.message@) == name_outcome(files_view(files@), name@, source_name@),
{
    let ghost fv = files_view(files@);
    if files.len() == 0 {
        let mut m = chars_of("未加载");
        push_str(&mut m, source_name);
        push_str(&mut m, "文件，请先选择文件");
        return MatchResult { status: QueryStatus::Error, message: string_of(&m) };
    }
    let key = name_key_exec(name);
    let mut hits: Vec<StandardEntry> = Vec::new();
    let mut fi: usize = 0;
    proof {
        assert(fv.take(0) =~= Seq::<FileView>::empty());
    }
    while fi < files.len()
        invariant
            fi <= files.len(),
            fv == files_view(files@),
            key@ == name_key(name@),
            hits@ == files_named(fv.take(fi as int), key@),
        decreases files.len() - fi,
    {
        let entries = &files[fi].entries;
        let ghost base = hits@;
        let mut ei: usize = 0;
        while ei < entries.len()
            invariant
                ei <= entries.len(),
                fi < files.len(),
                entries == &files@[fi as int].entries,
                key@ == name_key(name@),
                hits@ == base + entries_named(entries@.take(ei as int), key@),
            decreases entries.len() - ei,
        {
            let e = &entries[ei];
            let nk = name_key_exec(e.name.as_str());
            proof {
                assert(entries@.take(ei + 1).drop_last() =~= entries@.take(ei as int));
                assert(entries@.take(ei + 1).last() == *e);
            }
            if contains_exec(&nk, &key) {
                hits.push(e.duplicate());
                proof {
                    assert(base + entries_named(entries@.take(ei + 1), key@) =~= (base + entries_named(
                        entries@.take(ei as int),
                        key@,
                    )).push(*e));
                }
            } else {
                proof {
                    assert(base + entries_named(entries@.take(ei + 1), key@) =~= base + entries_named(
                        entries@.take(ei as int),
                        key@,
                    ));
                }
            }
            ei = ei + 1;
        }
        proof {
            assert(entries@.take(entries@.len() as int) =~= entries@);
            assert(fv.take(fi + 1).drop_last() =~= fv.take(fi as int));
            assert(fv.take(fi + 1).last().2 == entries@);
        }
        fi = fi + 1;
    }
    proof {
        assert(fv.take(fv.len() as int) =~= fv);
    }
    if hits.len() == 0 {
        return MatchResult { status: QueryStatus::Nomatch, message: string_of(&chars_of("无匹配")) };
    }
    let count = hits.len();
    let mut shown: Vec<StandardEntry> = Vec::new();
    let mut k: usize = 0;
    let limit: usize = if count > 10 {
        10
    } else {
        count
    };
    while k < limit
        invariant
            k <= limit <= hits.len(),
            shown@ == hits@.take(k as int),
        decreases limit - k,
    {
        shown.push(hits[k].duplicate());
        proof {
            assert(hits@.take(k + 1) =~= hits@.take(k as int).push(hits@[k as int]));
        }
        k = k + 1;
    }
    proof {
        assert(shown@ =~= first_ten(hits@));
    }
    let mut m = chars_of("按名称找到 ");
    let d = decimal_chars(count as u64);
    push_all(&mut m, &d);
    push_str(&mut m, " 条相关标准：\n");
    let lines = lines_of(&shown);
    let mut sep: Vec<char> = Vec::new();
    sep.push('\n');
    proof {
        assert(sep@ =~= seq!['\n']);
    }
    let joined = join_chars(&lines, &sep);
    push_all(&mut m, &joined);
    MatchResult { status: QueryStatus::Partial, message: string_of(&m) }
}

// ---------------------------------------------------------------- laws

/// Adding a file that is not loaded yet and then removing the last file gives
/// back the files as they were, whatever the parse gave.
pub proof fn law_add_then_remove(
    files: Seq<FileView>,
    path: Seq<char>,
    name: Seq<char>,
    parsed: Result<Vec<StandardEntry>, String>,
)
    requires
        !path_loaded(files, path),
    ensures
        removed(added(files, path, name, parsed), files.len() as int) == files,
{
    match parsed {
        Ok(e) => {
            assert(files.push((path, name, e@)).remove(files.len() as int) =~= files);
        },
        Err(_) => {},
    }
}

/// Once a file is loaded, adding the same path again changes nothing.
pub proof fn law_add_twice(
    files: Seq<FileView>,
    path: Seq<char>,
    name: Seq<char>,
    entries: Vec<StandardEntry>,
    name2: Seq<char>,
    parsed2: Result<Vec<StandardEntry>, String>,
)
    ensures
        added(added(files, path, name, Ok::<Vec<StandardEntry>, String>(entries)), path, name2, parsed2)
            == added(files, path, name, Ok::<Vec<StandardEntry>, String>(entries)),
{
    let once = added(files, path, name, Ok::<Vec<StandardEntry>, String>(entries));
    if !path_loaded(files, path) {
        assert(once[files.len() as int].0 == path);
    }
    assert(path_loaded(once, path));
}

proof fn lemma_with_key(idx: Seq<Keyed>, key: Seq<char>)
    ensures
        with_key(idx, key).len() > 0 <==> has_key(idx, key),
    decreases idx.len(),
{
    if idx.len() > 0 {
        lemma_with_key(idx.drop_last(), key);
        if has_key(idx.drop_last(), key) {
            let i = choose|i: int| 0 <= i < idx.drop_last().len() && idx.drop_last()[i].0 == key;
            assert(idx[i] == idx.drop_last()[i]);
        }
        if has_key(idx, key) && idx.last().0 != key {
            let i = choose|i: int| 0 <= i < idx.len() && idx[i].0 == key;
            assert(idx.drop_last()[i] == idx[i]);
        }
    }
}

/// A code counts as in the local files exactly when looking it up answers an
/// exact match.
pub proof fn law_known_code_is_exact(idx: Seq<Keyed>, target: Seq<char>, source: Seq<char>)
    ensures
        has_key(idx, target) <==> lookup_outcome(idx, target, source).0 == QueryStatus::Exact,
{
    lemma_with_key(idx, target);
}

proof fn lemma_keyed_has(entries: Seq<StandardEntry>, j: int)
    requires
        0 <= j < entries.len(),
        normalized(entries[j].code@).len() > 0,
    ensures
        has_key(keyed(entries), normalized(entries[j].code@)),
    decreases entries.len(),
{
    let k = normalized(entries[j].code@);
    let rest = keyed(entries.drop_last());
    if j == entries.len() - 1 {
        assert(keyed(entries)[rest.len() as int].0 == k);
    } else {
        assert(entries.drop_last()[j] == entries[j]);
        lemma_keyed_has(entries.drop_last(), j);
        let i = choose|i: int| 0 <= i < rest.len() && rest[i].0 == k;
        assert(keyed(entries)[i] == rest[i]);
    }
}

/// Every entry of a loaded file whose code has a normal form can be found by
/// that normal form.
pub proof fn law_loaded_code_known(files: Seq<FileView>, i: int, j: int)
    requires
        0 <= i < files.len(),
        0 <= j < files[i].2.len(),
        normalized(files[i].2[j].code@).len() > 0,
    ensures
        has_key(files_index(files), normalized(files[i].2[j].code@)),
    decreases files.len(),
{
    let k = normalized(files[i].2[j].code@);
    let rest = files_index(files.drop_last());
    if i == files.len() - 1 {
        lemma_keyed_has(files[i].2, j);
        let t = choose|t: int| 0 <= t < keyed(files[i].2).len() && keyed(files[i].2)[t].0 == k;
        assert(files_index(files)[rest.len() + t] == keyed(files[i].2)[t]);
    } else {
        assert(files.drop_last()[i] == files[i]);
        law_loaded_code_known(files.drop_last(), i, j);
        let t = choose|t: int| 0 <= t < rest.len() && rest[t].0 == k;
        assert(files_index(files)[t] == rest[t]);
    }
}


// ---------------------------------------------------------------- the index and its files

/// The entries of a list whose code has the normal form `k`, in order.
pub open spec fn entries_coded(entries: Seq<StandardEntry>, k: Seq<char>) -> Seq<StandardEntry>
    decreases entries.len(),
{
    if entries.len() == 0 {
        Seq::empty()
    } else {
        entries_coded(entries.drop_last(), k) + if normalized(entries.last().code@) == k {
            seq![entries.last()]
        } else {
            Seq::<StandardEntry>::empty()
        }
    }
}

/// The entries of the files whose code has the normal form `k`: file after
/// file, each file's entries in order.
pub open spec fn files_coded(files: Seq<FileView>, k: Seq<char>) -> Seq<StandardEntry>
    decreases files.len(),
{
    if files.len() == 0 {
        Seq::empty()
    } else {
        files_coded(files.drop_last(), k) + entries_coded(files.last().2, k)
    }
}

/// Some entry of the files has a code whose normal form is `k`.
pub open spec fn some_entry_coded(files: Seq<FileView>, k: Seq<char>) -> bool {
    exists|i: int, j: int|
        0 <= i < files.len() && 0 <= j < files[i].2.len() && normalized(
            #[trigger] files[i].2[j].code@,
        ) == k
}

/// Some entry of the files has a code with a non-empty normal form.
pub open spec fn some_entry_keyed(files: Seq<FileView>) -> bool {
    exists|i: int, j: int|
        0 <= i < files.len() && 0 <= j < files[i].2.len() && normalized(
            #[trigger] files[i].2[j].code@,
        ).len() > 0
}

/// The number of entries of the files, all of them.
pub open spec fn total_entries(files: Seq<FileView>) -> nat
    decreases files.len(),
{
    if files.len() == 0 {
        0
    } else {
        total_entries(files.drop_last()) + files.last().2.len()
    }
}

proof fn lemma_with_key_concat(a: Seq<Keyed>, b: Seq<Keyed>, k: Seq<char>)
    ensures
        with_key(a + b, k) == with_key(a, k) + with_key(b, k),
    decreases b.len(),
{
    if b.len() == 0 {
        assert(a + b =~= a);
        assert(with_key(a, k) + with_key(b, k) =~= with_key(a, k));
    } else {
        lemma_with_key_concat(a, b.drop_last(), k);
        assert((a + b).drop_last() =~= a + b.drop_last());
        assert((a + b).last() == b.last());
    }
}

proof fn lemma_with_key_keyed(entries: Seq<StandardEntry>, k: Seq<char>)
    requires
        k.len() > 0,
    ensures
        with_key(keyed(entries), k) == entries_coded(entries, k),
    decreases entries.len(),
{
    if entries.len() > 0 {
        let e = entries.last();
        let kk = normalized(e.code@);
        lemma_with_key_keyed(entries.drop_last(), k);
        let tail: Seq<Keyed> = if kk.len() == 0 {
            Seq::empty()
        } else {
            seq![(kk, e)]
        };
        assert(keyed(entries) == keyed(entries.drop_last()) + tail);
        lemma_with_key_concat(keyed(entries.drop_last()), tail, k);
        if kk.len() > 0 {
            assert(tail.drop_last() =~= Seq::<Keyed>::empty());
            assert(with_key(tail.drop_last(), k) =~= Seq::<StandardEntry>::empty());
            assert(with_key(tail, k) =~= if kk == k {
                seq![e]
            } else {
                Seq::<StandardEntry>::empty()
            });
        } else {
            assert(with_key(tail, k) =~= Seq::<StandardEntry>::empty());
        }
        assert(entries_coded(entries, k) == entries_coded(entries.drop_last(), k) + if kk == k {
            seq![e]
        } else {
            Seq::<StandardEntry>::empty()
        });
    }
}

proof fn lemma_keyed_from(entries: Seq<StandardEntry>)
    ensures
        forall|t: int|
            0 <= t < keyed(entries).len() ==> (#[trigger] keyed(entries)[t]).0.len() > 0 && exists|j: int|
                0 <= j < entries.len() && keyed(entries)[t] == (normalized(entries[j].code@), entries[j]),
    decreases entries.len(),
{
    if entries.len() > 0 {
        let rest = entries.drop_last();
        lemma_keyed_from(rest);
        assert forall|t: int| 0 <= t < keyed(entries).len() implies (#[trigger] keyed(entries)[t]).0.len()
            > 0 && exists|j: int|
            0 <= j < entries.len() && keyed(entries)[t] == (normalized(entries[j].code@), entries[j]) by {
            if t < keyed(rest).len() {
                assert(keyed(entries)[t] == keyed(rest)[t]);
                let j = choose|j: int|
                    0 <= j < rest.len() && keyed(rest)[t] == (normalized(rest[j].code@), rest[j]);
                assert(rest[j] == entries[j]);
            } else {
                let j = entries.len() - 1;
                assert(keyed(entries)[t] == (normalized(entries[j].code@), entries[j]));
            }
        }
    }
}

/// Every index entry comes from an entry of the files, under the normal form
/// of its code, which is not empty.
proof fn lemma_index_from_files(files: Seq<FileView>)
    ensures
        forall|t: int|
            0 <= t < files_index(files).len() ==> (#[trigger] files_index(files)[t]).0.len() > 0
                && exists|i: int, j: int|
                0 <= i < files.len() && 0 <= j < files[i].2.len() && files_index(files)[t] == (
                    normalized(files[i].2[j].code@),
                    files[i].2[j],
                ),
    decreases files.len(),
{
    if files.len() > 0 {
        let rest = files.drop_last();
        let last = files.last().2;
        lemma_index_from_files(rest);
        lemma_keyed_from(last);
        assert forall|t: int| 0 <= t < files_index(files).len() implies (
        #[trigger] files_index(files)[t]).0.len() > 0 && exists|i: int, j: int|
            0 <= i < files.len() && 0 <= j < files[i].2.len() && files_index(files)[t] == (
                normalized(files[i].2[j].code@),
                files[i].2[j],
            ) by {
            let n = files_index(rest).len();
            if t < n {
                assert(files_index(files)[t] == files_index(rest)[t]);
                let (i, j) = choose|i: int, j: int|
                    0 <= i < rest.len() && 0 <= j < rest[i].2.len() && files_index(rest)[t] == (
                        normalized(rest[i].2[j].code@),
                        rest[i].2[j],
                    );
                assert(rest[i] == files[i]);
            } else {
                assert(files_index(files)[t] == keyed(last)[t - n]);
                let j = choose|j: int|
                    0 <= j < last.len() && keyed(last)[t - n] == (normalized(last[j].code@), last[j]);
                assert(files[files.len() - 1].2 == last);
            }
        }
    }
}

/// The index lists, under a normal form, the entries of the files whose code
/// has that normal form: file after file, each file's entries in order. The
/// empty normal form lists nothing.
pub proof fn law_index_by_code(files: Seq<FileView>, k: Seq<char>)
    ensures
        k.len() > 0 ==> with_key(files_index(files), k) == files_coded(files, k),
        k.len() == 0 ==> with_key(files_index(files), k).len() == 0,
    decreases files.len(),
{
    if k.len() > 0 && files.len() > 0 {
        law_index_by_code(files.drop_last(), k);
        lemma_with_key_concat(files_index(files.drop_last()), keyed(files.last().2), k);
        lemma_with_key_keyed(files.last().2, k);
    }
    if k.len() == 0 {
        lemma_with_key(files_index(files), k);
        lemma_index_from_files(files);
        if has_key(files_index(files), k) {
            let t = choose|t: int| 0 <= t < files_index(files).len() && files_index(files)[t].0 == k;
            assert(files_index(files)[t].0.len() > 0);
        }
    }
}

/// A code counts as loaded exactly when its normal form is not empty and is
/// the normal form of the code of some entry of the files.
pub proof fn law_loaded_exactly(files: Seq<FileView>, k: Seq<char>)
    ensures
        has_key(files_index(files), k) <==> k.len() > 0 && some_entry_coded(files, k),
{
    lemma_index_from_files(files);
    if has_key(files_index(files), k) {
        let t = choose|t: int| 0 <= t < files_index(files).len() && files_index(files)[t].0 == k;
        let (i, j) = choose|i: int, j: int|
            0 <= i < files.len() && 0 <= j < files[i].2.len() && files_index(files)[t] == (
                normalized(files[i].2[j].code@),
                files[i].2[j],
            );
        assert(normalized(files[i].2[j].code@) == k);
    }
    if k.len() > 0 && some_entry_coded(files, k) {
        let (i, j) = choose|i: int, j: int|
            0 <= i < files.len() && 0 <= j < files[i].2.len() && normalized(
                #[trigger] files[i].2[j].code@,
            ) == k;
        law_loaded_code_known(files, i, j);
    }
}

/// A lookup answers that nothing is loaded exactly when no entry of the files
/// has a code with a non-empty normal form, and then says which files to load.
pub proof fn law_not_loaded_error(files: Seq<FileView>, target: Seq<char>, source: Seq<char>)
    ensures
        lookup_outcome(files_index(files), target, source).0 == QueryStatus::Error
            <==> !some_entry_keyed(files),
        lookup_outcome(files_index(files), target, source).0 == QueryStatus::Error
            ==> lookup_outcome(files_index(files), target, source).1 == "未加载"@ + source
            + "文件，请先选择文件"@,
{
    let idx = files_index(files);
    lemma_index_from_files(files);
    if idx.len() > 0 {
        let (i, j) = choose|i: int, j: int|
            0 <= i < files.len() && 0 <= j < files[i].2.len() && idx[0] == (
                normalized(files[i].2[j].code@),
                files[i].2[j],
            );
        assert(normalized(files[i].2[j].code@).len() > 0);
    }
    if some_entry_keyed(files) {
        let (i, j) = choose|i: int, j: int|
            0 <= i < files.len() && 0 <= j < files[i].2.len() && normalized(
                #[trigger] files[i].2[j].code@,
            ).len() > 0;
        law_loaded_code_known(files, i, j);
    }
}

/// The browse list has one row for each entry of each file.
pub proof fn law_browse_counts_entries(files: Seq<FileView>, kind: Seq<char>)
    ensures
        browse_rows(files, kind).len() == total_entries(files),
    decreases files.len(),
{
    if files.len() > 0 {
        law_browse_counts_entries(files.drop_last(), kind);
    }
}

/// CNAS files play no part in CMA lookups, and CMA files none in CNAS lookups:
/// two matchers with the same files of one kind answer every lookup of that
/// kind alike.
pub proof fn law_lookups_read_own_files(a: LocalFileMatcher, b: LocalFileMatcher, code: Seq<char>)
    ensures
        a.cma() == b.cma() ==> lookup_outcome(files_index(a.cma()), normalized(code), "CMA附表"@)
            == lookup_outcome(files_index(b.cma()), normalized(code), "CMA附表"@),
        a.cnas() == b.cnas() ==> lookup_outcome(files_index(a.cnas()), normalized(code), "CNAS附表"@)
            == lookup_outcome(files_index(b.cnas()), normalized(code), "CNAS附表"@),
{
}

// ---------------------------------------------------------------- lookup answers

proof fn lemma_keys_in_order(idx: Seq<Keyed>, k: Seq<char>)
    ensures
        keys_in_order(idx).contains(k) <==> has_key(idx, k),
    decreases idx.len(),
{
    if idx.len() > 0 {
        let rest = idx.drop_last();
        lemma_keys_in_order(rest, k);
        if has_key(rest, k) {
            let i = choose|i: int| 0 <= i < rest.len() && rest[i].0 == k;
            assert(idx[i] == rest[i]);
        }
        if has_key(idx, k) && idx.last().0 != k {
            let i = choose|i: int| 0 <= i < idx.len() && idx[i].0 == k;
            assert(rest[i] == idx[i]);
        }
        let ks = keys_in_order(rest);
        if !ks.contains(idx.last().0) {
            assert(ks.push(idx.last().0).last() == idx.last().0);
            if ks.contains(k) {
                let m = choose|m: int| 0 <= m < ks.len() && ks[m] == k;
                assert(ks.push(idx.last().0)[m] == k);
            }
            if ks.push(idx.last().0).contains(k) && k != idx.last().0 {
                let m = choose|m: int| 0 <= m < ks.len() + 1 && ks.push(idx.last().0)[m] == k;
                assert(ks[m] == k);
            }
        }
        if idx.last().0 == k {
            assert(idx[idx.len() - 1].0 == k);
        }
    }
}

proof fn lemma_grouped_nonempty(idx: Seq<Keyed>, keys: Seq<Seq<char>>, target: Seq<char>)
    ensures
        grouped_related(idx, keys, target).len() > 0 <==> exists|m: int|
            0 <= m < keys.len() && related(#[trigger] keys[m], target) && with_key(idx, keys[m]).len()
                > 0,
    decreases keys.len(),
{
    if keys.len() > 0 {
        let rest = keys.drop_last();
        lemma_grouped_nonempty(idx, rest, target);
        if exists|m: int|
            0 <= m < rest.len() && related(#[trigger] rest[m], target) && with_key(idx, rest[m]).len()
                > 0 {
            let m = choose|m: int|
                0 <= m < rest.len() && related(#[trigger] rest[m], target) && with_key(
                    idx,
                    rest[m],
                ).len() > 0;
            assert(keys[m] == rest[m]);
        }
        if exists|m: int|
            0 <= m < keys.len() && related(#[trigger] keys[m], target) && with_key(idx, keys[m]).len()
                > 0 {
            let m = choose|m: int|
                0 <= m < keys.len() && related(#[trigger] keys[m], target) && with_key(
                    idx,
                    keys[m],
                ).len() > 0;
            if m < keys.len() - 1 {
                assert(rest[m] == keys[m]);
            }
        }
    }
}

/// Some entry of the index is listed as near `target` exactly when some key
/// is related to it.
proof fn lemma_related_nonempty(idx: Seq<Keyed>, target: Seq<char>)
    ensures
        related_entries(idx, target).len() > 0 <==> exists|i: int|
            0 <= i < idx.len() && related(#[trigger] idx[i].0, target),
{
    let ks = keys_in_order(idx);
    lemma_grouped_nonempty(idx, ks, target);
    if exists|i: int| 0 <= i < idx.len() && related(#[trigger] idx[i].0, target) {
        let i = choose|i: int| 0 <= i < idx.len() && related(#[trigger] idx[i].0, target);
        let k = idx[i].0;
        lemma_keys_in_order(idx, k);
        lemma_with_key(idx, k);
        let m = choose|m: int| 0 <= m < ks.len() && ks[m] == k;
        assert(related(ks[m], target));
    }
    if related_entries(idx, target).len() > 0 {
        let m = choose|m: int|
            0 <= m < ks.len() && related(#[trigger] ks[m], target) && with_key(idx, ks[m]).len() > 0;
        lemma_with_key(idx, ks[m]);
        let i = choose|i: int| 0 <= i < idx.len() && idx[i].0 == ks[m];
        assert(related(idx[i].0, target));
    }
}

/// Some entry of the index has key `k` and entry `e`.
spec fn keyed_as(idx: Seq<Keyed>, e: StandardEntry, k: Seq<char>) -> bool {
    exists|i: int| 0 <= i < idx.len() && idx[i].0 == k && idx[i].1 == e
}

/// Some entry of the index has entry `e` and a key related to `target`.
pub open spec fn listed_near(idx: Seq<Keyed>, e: StandardEntry, target: Seq<char>) -> bool {
    exists|i: int| 0 <= i < idx.len() && related(idx[i].0, target) && idx[i].1 == e
}

proof fn lemma_with_key_members(idx: Seq<Keyed>, k: Seq<char>)
    ensures
        forall|n: int| 0 <= n < with_key(idx, k).len() ==> keyed_as(idx, #[trigger] with_key(idx, k)[n], k),
    decreases idx.len(),
{
    if idx.len() > 0 {
        let rest = idx.drop_last();
        lemma_with_key_members(rest, k);
        assert forall|n: int| 0 <= n < with_key(idx, k).len() implies keyed_as(
            idx,
            #[trigger] with_key(idx, k)[n],
            k,
        ) by {
            if n < with_key(rest, k).len() {
                assert(with_key(idx, k)[n] == with_key(rest, k)[n]);
                assert(keyed_as(rest, with_key(rest, k)[n], k));
                let i = choose|i: int|
                    0 <= i < rest.len() && rest[i].0 == k && rest[i].1 == with_key(rest, k)[n];
                assert(idx[i] == rest[i]);
            } else {
                assert(idx[idx.len() - 1].1 == with_key(idx, k)[n]);
            }
        }
    }
}

proof fn lemma_grouped_members(idx: Seq<Keyed>, keys: Seq<Seq<char>>, target: Seq<char>)
    ensures
        forall|n: int|
            0 <= n < grouped_related(idx, keys, target).len() ==> listed_near(
                idx,
                #[trigger] grouped_related(idx, keys, target)[n],
                target,
            ),
    decreases keys.len(),
{
    if keys.len() > 0 {
        let rest = keys.drop_last();
        let k = keys.last();
        lemma_grouped_members(idx, rest, target);
        lemma_with_key_members(idx, k);
        let g = grouped_related(idx, rest, target);
        assert forall|n: int| 0 <= n < grouped_related(idx, keys, target).len() implies listed_near(
            idx,
            #[trigger] grouped_related(idx, keys, target)[n],
            target,
        ) by {
            if n < g.len() {
                assert(grouped_related(idx, keys, target)[n] == g[n]);
                assert(listed_near(idx, g[n], target));
            } else {
                let w = with_key(idx, k);
                assert(grouped_related(idx, keys, target)[n] == w[n - g.len()]);
                assert(keyed_as(idx, w[n - g.len()], k));
                let i = choose|i: int| 0 <= i < idx.len() && idx[i].0 == k && idx[i].1 == w[n - g.len()];
                assert(related(idx[i].0, target));
            }
        }
    }
}

/// A lookup answers, of the normal form `target`:
/// * that nothing is loaded exactly when the index is empty;
/// * an exact match exactly when some entry has that normal form;
/// * a partial match exactly when none has, but some entry's normal form
///   contains it or is contained in it; it then lists at most ten entries, each
///   of them such an entry;
/// * no match otherwise.
pub proof fn law_lookup_cases(idx: Seq<Keyed>, target: Seq<char>, source: Seq<char>)
    ensures
        lookup_outcome(idx, target, source).0 == QueryStatus::Error <==> idx.len() == 0,
        lookup_outcome(idx, target, source).0 == QueryStatus::Exact <==> has_key(idx, target),
        lookup_outcome(idx, target, source).0 == QueryStatus::Partial <==> !has_key(idx, target)
            && exists|i: int| 0 <= i < idx.len() && related(#[trigger] idx[i].0, target),
        lookup_outcome(idx, target, source).0 == QueryStatus::Nomatch <==> idx.len() > 0
            && !has_key(idx, target) && forall|i: int|
            0 <= i < idx.len() ==> !related(#[trigger] idx[i].0, target),
        first_ten(related_entries(idx, target)).len() <= 10,
        forall|n: int|
            0 <= n < first_ten(related_entries(idx, target)).len() ==> listed_near(
                idx,
                #[trigger] first_ten(related_entries(idx, target))[n],
                target,
            ),
{
    lemma_with_key(idx, target);
    lemma_related_nonempty(idx, target);
    lemma_grouped_members(idx, keys_in_order(idx), target);
    let r = related_entries(idx, target);
    assert forall|n: int| 0 <= n < first_ten(r).len() implies listed_near(
        idx,
        #[trigger] first_ten(r)[n],
        target,
    ) by {
        assert(first_ten(r)[n] == r[n]);
    }
    if has_key(idx, target) {
        let i = choose|i: int| 0 <= i < idx.len() && idx[i].0 == target;
    }
}

// ---------------------------------------------------------------- lookups by name

/// An entry of one of the files whose name, compared as `name_key`, contains `key`.
pub open spec fn named_in(files: Seq<FileView>, e: StandardEntry, key: Seq<char>) -> bool {
    &&& contains_seq(name_key(e.name@), key)
    &&& exists|i: int| 0 <= i < files.len() && files[i].2.contains(e)
}

proof fn lemma_drop_char_absent(s: Seq<char>, c: char)
    ensures
        forall|n: int| 0 <= n < drop_char(s, c).len() ==> #[trigger] drop_char(s, c)[n] != c,
    decreases s.len(),
{
    if s.len() > 0 {
        lemma_drop_char_absent(s.drop_last(), c);
        let d = drop_char(s.drop_last(), c);
        assert forall|n: int| 0 <= n < drop_char(s, c).len() implies #[trigger] drop_char(s, c)[n] != c by {
            if n < d.len() {
                assert(drop_char(s, c)[n] == d[n]);
            }
        }
    }
}

proof fn lemma_entries_named_members(es: Seq<StandardEntry>, key: Seq<char>)
    ensures
        forall|n: int|
            0 <= n < entries_named(es, key).len() ==> contains_seq(
                name_key((#[trigger] entries_named(es, key)[n]).name@),
                key,
            ) && es.contains(entries_named(es, key)[n]),
    decreases es.len(),
{
    if es.len() > 0 {
        let rest = es.drop_last();
        lemma_entries_named_members(rest, key);
        let d = entries_named(rest, key);
        assert forall|n: int| 0 <= n < entries_named(es, key).len() implies contains_seq(
            name_key((#[trigger] entries_named(es, key)[n]).name@),
            key,
        ) && es.contains(entries_named(es, key)[n]) by {
            if n < d.len() {
                assert(entries_named(es, key)[n] == d[n]);
                let j = choose|j: int| 0 <= j < rest.len() && rest[j] == d[n];
                assert(es[j] == rest[j]);
            } else {
                assert(entries_named(es, key)[n] == es[es.len() - 1]);
            }
        }
    }
}

proof fn lemma_files_named_members(files: Seq<FileView>, key: Seq<char>)
    ensures
        forall|n: int|
            0 <= n < files_named(files, key).len() ==> named_in(
                files,
                #[trigger] files_named(files, key)[n],
                key,
            ),
    decreases files.len(),
{
    if files.len() > 0 {
        let rest = files.drop_last();
        let last = files.last().2;
        lemma_files_named_members(rest, key);
        lemma_entries_named_members(last, key);
        let d = files_named(rest, key);
        assert forall|n: int| 0 <= n < files_named(files, key).len() implies named_in(
            files,
            #[trigger] files_named(files, key)[n],
            key,
        ) by {
            if n < d.len() {
                assert(files_named(files, key)[n] == d[n]);
                assert(named_in(rest, d[n], key));
                let i = choose|i: int| 0 <= i < rest.len() && rest[i].2.contains(d[n]);
                assert(files[i] == rest[i]);
            } else {
                let e = entries_named(last, key)[n - d.len()];
                assert(files_named(files, key)[n] == e);
                assert(files[files.len() - 1].2 == last);
            }
        }
    }
}

/// A lookup by name lists at most ten entries, each an entry of the files whose
/// name contains the name asked for; names are compared without their spaces.
pub proof fn law_name_lookup_lists(files: Seq<FileView>, name: Seq<char>)
    ensures
        first_ten(files_named(files, name_key(name))).len() <= 10,
        forall|n: int|
            0 <= n < first_ten(files_named(files, name_key(name))).len() ==> named_in(
                files,
                #[trigger] first_ten(files_named(files, name_key(name)))[n],
                name_key(name),
            ),
        forall|n: int| 0 <= n < name_key(name).len() ==> #[trigger] name_key(name)[n] != ' ',
{
    let hits = files_named(files, name_key(name));
    lemma_files_named_members(files, name_key(name));
    lemma_drop_char_absent(lowercase(name), ' ');
    assert forall|n: int| 0 <= n < first_ten(hits).len() implies named_in(
        files,
        #[trigger] first_ten(hits)[n],
        name_key(name),
    ) by {
        assert(first_ten(hits)[n] == hits[n]);
    }
}

/// The entries of all the files, file after file, each file's in order.
pub open spec fn all_entries(files: Seq<FileView>) -> Seq<StandardEntry>
    decreases files.len(),
{
    if files.len() == 0 {
        Seq::empty()
    } else {
        all_entries(files.drop_last()) + files.last().2
    }
}

proof fn lemma_entries_named_filter(es: Seq<StandardEntry>, key: Seq<char>)
    ensures
        entries_named(es, key) == es.filter(|e: StandardEntry| contains_seq(name_key(e.name@), key)),
    decreases es.len(),
{
    reveal_with_fuel(Seq::<StandardEntry>::filter, 1);
    if es.len() > 0 {
        lemma_entries_named_filter(es.drop_last(), key);
        let pred = |e: StandardEntry| contains_seq(name_key(e.name@), key);
        if pred(es.last()) {
            assert(entries_named(es, key) =~= entries_named(es.drop_last(), key).push(es.last()));
        } else {
            assert(entries_named(es, key) =~= entries_named(es.drop_last(), key));
        }
    }
}

proof fn lemma_files_named_filter(files: Seq<FileView>, key: Seq<char>)
    ensures
        files_named(files, key) == all_entries(files).filter(
            |e: StandardEntry| contains_seq(name_key(e.name@), key),
        ),
    decreases files.len(),
{
    let pred = |e: StandardEntry| contains_seq(name_key(e.name@), key);
    if files.len() == 0 {
        reveal_with_fuel(Seq::<StandardEntry>::filter, 1);
        assert(all_entries(files).filter(pred) =~= Seq::<StandardEntry>::empty());
    } else {
        lemma_files_named_filter(files.drop_last(), key);
        lemma_entries_named_filter(files.last().2, key);
        Seq::filter_distributes_over_add(all_entries(files.drop_last()), files.last().2, pred);
    }
}

proof fn lemma_all_entries_has(files: Seq<FileView>, i: int, j: int)
    requires
        0 <= i < files.len(),
        0 <= j < files[i].2.len(),
    ensures
        all_entries(files).contains(files[i].2[j]),
    decreases files.len(),
{
    let rest = all_entries(files.drop_last());
    if i == files.len() - 1 {
        assert(all_entries(files)[rest.len() + j] == files[i].2[j]);
    } else {
        assert(files.drop_last()[i] == files[i]);
        lemma_all_entries_has(files.drop_last(), i, j);
        let n = choose|n: int| 0 <= n < rest.len() && rest[n] == files[i].2[j];
        assert(all_entries(files)[n] == rest[n]);
    }
}

/// A lookup by name finds, in order, exactly the entries of all the loaded
/// files whose name contains the name asked for (both compared as `name_key`);
/// when one of the loaded files has such an entry, the answer is a partial
/// match that counts and lists the hits.
pub proof fn law_name_lookup_complete(files: Seq<FileView>, name: Seq<char>, source: Seq<char>)
    ensures
        files_named(files, name_key(name)) == all_entries(files).filter(
            |e: StandardEntry| contains_seq(name_key(e.name@), name_key(name)),
        ),
        (exists|i: int, j: int|
            0 <= i < files.len() && 0 <= j < files[i].2.len() && contains_seq(
                name_key(#[trigger] files[i].2[j].name@),
                name_key(name),
            )) ==> name_outcome(files, name, source).0 == QueryStatus::Partial,
{
    let key = name_key(name);
    let pred = |e: StandardEntry| contains_seq(name_key(e.name@), key);
    lemma_files_named_filter(files, key);
    if exists|i: int, j: int|
        0 <= i < files.len() && 0 <= j < files[i].2.len() && contains_seq(
            name_key(#[trigger] files[i].2[j].name@),
            key,
        ) {
        let (i, j) = choose|i: int, j: int|
            0 <= i < files.len() && 0 <= j < files[i].2.len() && contains_seq(
                name_key(#[trigger] files[i].2[j].name@),
                key,
            );
        lemma_all_entries_has(files, i, j);
        let all = all_entries(files);
        let n = choose|n: int| 0 <= n < all.len() && all[n] == files[i].2[j];
        all.lemma_filter_contains(pred, n);
        assert(all.filter(pred).len() > 0);
    }
}

} // verus!
