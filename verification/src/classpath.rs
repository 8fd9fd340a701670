//! The classpath of a project, as the `clojure` program prints it and as its cache keeps
//! it.

use vstd::prelude::*;
use crate::collect::{contains_str, copy_strs, join_by, joined_by, push_item, push_str, strs, Copied};
use crate::path::{absolute, extension_of, has_extension, is_absolute, join, joined};
use crate::sort::{arrange, arranged, law_arranged, ordered, Sorted};
use crate::text::{
    chars_of, concat2, concat3, index_from, lemma_index_from, line_stop, stop_of, string_of,
};
use crate::words::{trim, trimmed};

verus! {

/// The argument that selects aliases; `None` where there are none.
pub open spec fn alias_option(aliases: Seq<Seq<char>>) -> Option<Seq<char>> {
    if aliases.len() == 0 {
        None
    } else {
        Some("-A:"@ + joined_by(aliases, ":"@, aliases.len()))
    }
}

/// The argument that selects aliases: `-A:dev:test`.
pub fn alias_arg(aliases: &[String]) -> (r: Option<String>)
    ensures
        r.deep_view() == alias_option(strs(aliases@)),
{
    if aliases.len() == 0 {
        None
    } else {
        Some(concat2("-A:", join_by(aliases, ":").as_str()))
    }
}

/// The paths that the first `n` entries stand for: a relative one is relative to the
/// project.
pub open spec fn resolved_entries(root: Seq<char>, raw: Seq<Seq<char>>, n: nat) -> Seq<Seq<char>>
    decreases n,
{
    if n == 0 {
        seq![]
    } else {
        resolved_entries(root, raw, (n - 1) as nat).push(joined(root, raw[n - 1]))
    }
}

/// The paths that the entries of a classpath stand for.
pub fn resolve_entries(root: &str, raw: &Vec<String>) -> (r: Vec<String>)
    ensures
        strs(r@) == resolved_entries(root@, strs(raw@), raw@.len()),
{
    let ghost all = strs(raw@);
    let mut out: Vec<String> = Vec::new();
    assert(strs(out@) =~= seq![]);
    let mut i: usize = 0;
    while i < raw.len()
        invariant
            i <= raw@.len(),
            all == strs(raw@),
            strs(out@) == resolved_entries(root@, all, i as nat),
        decreases raw@.len() - i,
    {
        assert(all[i as int] == raw@[i as int]@);
        push_str(&mut out, join(root, raw[i].as_str()));
        i += 1;
    }
    out
}

/// The paths of the first `n` entries that are on disk.
pub open spec fn present_entries(
    root: Seq<char>,
    raw: Seq<Seq<char>>,
    on_disk: Seq<Seq<char>>,
    n: nat,
) -> Seq<Seq<char>>
    decreases n,
{
    if n == 0 {
        seq![]
    } else {
        let before = present_entries(root, raw, on_disk, (n - 1) as nat);
        if on_disk.contains(joined(root, raw[n - 1])) {
            before.push(joined(root, raw[n - 1]))
        } else {
            before
        }
    }
}

/// Whether an entry that names a library is on disk: an absolute one. A relative one is a
/// directory of the project.
pub open spec fn has_library(raw: Seq<Seq<char>>, on_disk: Seq<Seq<char>>) -> bool {
    exists|i: int|
        0 <= i < raw.len() && absolute(#[trigger] raw[i]) && on_disk.contains(raw[i])
}

/// The paths of a classpath that are on disk, and whether a library is among them;
/// `on_disk` lists the paths there are.
pub fn parse_entries(root: &str, raw: &Vec<String>, on_disk: &Vec<String>) -> (r: (Vec<String>, bool))
    ensures
        strs(r.0@) == present_entries(root@, strs(raw@), strs(on_disk@), raw@.len()),
        r.1 == has_library(strs(raw@), strs(on_disk@)),
{
    let ghost all = strs(raw@);
    let ghost disk = strs(on_disk@);
    let mut entries: Vec<String> = Vec::new();
    let mut library = false;
    assert(strs(entries@) =~= seq![]);
    let mut i: usize = 0;
    while i < raw.len()
        invariant
            i <= raw@.len(),
            all == strs(raw@),
            disk == strs(on_disk@),
            strs(entries@) == present_entries(root@, all, disk, i as nat),
            library ==> has_library(all, disk),
            !library ==> forall|k: int|
                0 <= k < i ==> !(absolute(#[trigger] all[k]) && disk.contains(all[k])),
        decreases raw@.len() - i,
    {
        assert(all[i as int] == raw@[i as int]@);
        let path = join(root, raw[i].as_str());
        if contains_str(on_disk, path.as_str()) {
            if is_absolute(raw[i].as_str()) {
                library = true;
                assert(absolute(all[i as int]) && disk.contains(all[i as int]));
            }
            push_str(&mut entries, path);
        }
        i += 1;
    }
    (entries, library)
}

/// The last line from `i` on that is not blank, or `last` where all are.
pub open spec fn last_line(text: Seq<char>, i: nat, last: Option<Seq<char>>) -> Option<Seq<char>>
    decreases text.len() + 1 - i,
{
    if i > text.len() {
        last
    } else {
        let stop = line_stop(text, i);
        let line = line_text(text, i, stop);
        let now = if trimmed(line).len() == 0 {
            last
        } else {
            Some(line)
        };
        if i <= stop < text.len() {
            last_line(text, stop + 1, now)
        } else {
            now
        }
    }
}

/// The line from `i` to `stop`, without a carriage return at its end.
pub open spec fn line_text(text: Seq<char>, i: nat, stop: nat) -> Seq<char> {
    if i < stop < text.len() && text[stop - 1] == '\r' {
        text.subrange(i as int, stop - 1)
    } else {
        text.subrange(i as int, stop as int)
    }
}

/// The line that holds the classpath: the last one that is not blank. Before it the
/// program may tell of downloads.
pub fn classpath_line(stdout: &str) -> (r: Option<String>)
    ensures
        r.deep_view() == last_line(stdout@, 0, None),
{
    let chars = chars_of(stdout);
    let ghost text = stdout@;
    let len: usize = chars.len();
    let mut last: Option<String> = None;
    let mut i: usize = 0;
    let mut done = false;
    while !done
        invariant
            chars@ == text,
            i <= len == text.len(),
            !done ==> last_line(text, 0, None) == last_line(text, i as nat, last.deep_view()),
            done ==> last_line(text, 0, None) == last.deep_view(),
        decreases
                len - i,
                if done {
                    0int
                } else {
                    1int
                },
    {
        let stop: usize = stop_of(&chars, i);
        let end: usize = if i < stop && stop < len && chars[stop - 1] == '\r' {
            stop - 1
        } else {
            stop
        };
        let line = string_of(&chars, i, end);
        assert(line@ == line_text(text, i as nat, stop as nat));
        if !trim(line.as_str()).as_str().is_empty() {
            last = Some(line);
        }
        if stop < len {
            i = stop + 1;
        } else {
            done = true;
        }
    }
    last
}

/// How a run of the program ended.
#[derive(Clone, Debug)]
pub enum Run {
    /// It took longer than it may.
    TimedOut { after: String },
    /// It could not be started.
    NotRun { error: String },
    /// It failed.
    Failed { status: String, stderr: String },
    Done { stdout: String },
}

/// What a [`Run`] says.
pub ghost enum RunView {
    TimedOut { after: Seq<char> },
    NotRun { error: Seq<char> },
    Failed { status: Seq<char>, stderr: Seq<char> },
    Done { stdout: Seq<char> },
}

impl DeepView for Run {
    type V = RunView;

    open spec fn deep_view(&self) -> RunView {
        match self {
            Run::TimedOut { after } => RunView::TimedOut { after: after@ },
            Run::NotRun { error } => RunView::NotRun { error: error@ },
            Run::Failed { status, stderr } => RunView::Failed { status: status@, stderr: stderr@ },
            Run::Done { stdout } => RunView::Done { stdout: stdout@ },
        }
    }
}

/// What is told of an error: its start, no longer than five hundred characters.
pub open spec fn snippet(stderr: Seq<char>) -> Seq<char> {
    let text = trimmed(stderr);
    if text.len() <= 500 {
        text
    } else {
        text.take(500)
    }
}

fn snippet_of(stderr: &str) -> (r: String)
    ensures
        r@ == snippet(stderr@),
{
    let text = trim(stderr);
    let chars = chars_of(text.as_str());
    if chars.len() <= 500 {
        text
    } else {
        let out = string_of(&chars, 0, 500);
        assert(out@ =~= text@.take(500));
        out
    }
}

/// The classpath that a run of the program `name` printed, or why there is none.
pub open spec fn run_result(name: Seq<char>, run: RunView) -> Result<Seq<char>, Seq<char>> {
    let call = "`"@ + name + " -Spath`"@;
    match run {
        RunView::TimedOut { after } => Err(call + " timed out after "@ + after),
        RunView::NotRun { error } => Err("failed to run `"@ + name + "`: "@ + error),
        RunView::Failed { status, stderr } => Err(
            call + " failed ("@ + status + "): "@ + snippet(stderr),
        ),
        RunView::Done { stdout } => match last_line(stdout, 0, None) {
            Some(line) => Ok(line),
            None => Err(call + " produced no output"@),
        },
    }
}

/// The classpath that a run of the program `name` printed, or why there is none.
pub fn read_run(name: &str, run: &Run) -> (r: Result<String, String>)
    ensures
        match r {
            Ok(line) => run_result(name@, run.deep_view()) == Ok::<Seq<char>, Seq<char>>(line@),
            Err(why) => run_result(name@, run.deep_view()) == Err::<Seq<char>, Seq<char>>(why@),
        },
{
    let call = concat3("`", name, " -Spath`");
    match run {
        Run::TimedOut { after } => Err(
            concat3(call.as_str(), " timed out after ", after.as_str()),
        ),
        Run::NotRun { error } => {
            let front = concat3("failed to run `", name, "`: ");
            Err(concat2(front.as_str(), error.as_str()))
        },
        Run::Failed { status, stderr } => {
            let front = concat3(call.as_str(), " failed (", status.as_str());
            Err(concat3(front.as_str(), "): ", snippet_of(stderr.as_str()).as_str()))
        },
        Run::Done { stdout } => match classpath_line(stdout.as_str()) {
            Some(line) => Ok(line),
            None => Err(concat2(call.as_str(), " produced no output")),
        },
    }
}

/// The classpath of a run, of which `raw` are the entries; an error where nothing of it is
/// on disk.
pub fn resolve_with(name: &str, root: &str, raw: &Vec<String>, on_disk: &Vec<String>) -> (r: Result<
    Vec<String>,
    String,
>)
    ensures
        ({
            let found = present_entries(root@, strs(raw@), strs(on_disk@), raw@.len());
            match r {
                Ok(entries) => strs(entries@) == found && found.len() > 0,
                Err(why) => found.len() == 0 && why@ == "`"@ + name@
                    + " -Spath` classpath has no existing entries"@,
            }
        }),
{
    let (entries, _) = parse_entries(root, raw, on_disk);
    if entries.len() == 0 {
        Err(concat3("`", name, " -Spath` classpath has no existing entries"))
    } else {
        Ok(entries)
    }
}

/// A file of the cache: when it was last changed, and the entries of its classpath.
#[derive(Clone, Debug)]
pub struct CacheFile {
    pub path: String,
    pub mtime: u128,
    pub entries: Vec<String>,
}

/// What a [`CacheFile`] says.
pub ghost struct CacheFileView {
    pub path: Seq<char>,
    pub mtime: u128,
    pub entries: Seq<Seq<char>>,
}

impl DeepView for CacheFile {
    type V = CacheFileView;

    open spec fn deep_view(&self) -> CacheFileView {
        CacheFileView { path: self.path@, mtime: self.mtime, entries: strs(self.entries@) }
    }
}

impl Copied for CacheFile {
    fn copied(&self) -> (r: Self) {
        CacheFile {
            path: self.path.clone(),
            mtime: self.mtime,
            entries: copy_strs(&self.entries),
        }
    }
}

/// The newest comes first.
impl Sorted for CacheFile {
    open spec fn le(a: CacheFileView, b: CacheFileView) -> bool {
        a.mtime >= b.mtime
    }

    proof fn lemma_order(a: CacheFileView, b: CacheFileView, c: CacheFileView) {
    }

    fn is_le(&self, other: &CacheFile) -> (r: bool) {
        self.mtime >= other.mtime
    }
}

/// The classpath files among the first `n`.
pub open spec fn classpath_files(files: Seq<CacheFileView>, n: nat) -> Seq<CacheFileView>
    decreases n,
{
    if n == 0 {
        seq![]
    } else {
        let before = classpath_files(files, (n - 1) as nat);
        if extension_of(files[n - 1].path) == Some("cp"@) {
            before.push(files[n - 1])
        } else {
            before
        }
    }
}

/// The classpath files of a cache, the newest first.
pub open spec fn newest_first(files: Seq<CacheFileView>) -> Seq<CacheFileView> {
    let found = classpath_files(files, files.len());
    arranged::<CacheFile>(found, found.len())
}

/// The classpath files of a cache, the newest first.
pub fn cp_files_newest_first(files: &Vec<CacheFile>) -> (r: Vec<CacheFile>)
    ensures
        r.deep_view() == newest_first(files.deep_view()),
{
    let ghost all = files.deep_view();
    let mut out: Vec<CacheFile> = Vec::new();
    assert(out.deep_view() =~= seq![]);
    let mut i: usize = 0;
    while i < files.len()
        invariant
            i <= files@.len(),
            all == files.deep_view(),
            out.deep_view() == classpath_files(all, i as nat),
        decreases files@.len() - i,
    {
        assert(all[i as int] == files@[i as int].deep_view());
        if has_extension(files[i].path.as_str(), "cp") {
            push_item(&mut out, files[i].copied());
        }
        i += 1;
    }
    arrange(&out)
}

/// The entries of the first file from `i` on that names a library on disk. One that names
/// none is stale, and an older one may still be good.
pub open spec fn first_live(
    root: Seq<char>,
    files: Seq<CacheFileView>,
    on_disk: Seq<Seq<char>>,
    i: nat,
) -> Seq<Seq<char>>
    decreases files.len() - i,
{
    if i >= files.len() {
        seq![]
    } else if has_library(files[i as int].entries, on_disk) {
        present_entries(root, files[i as int].entries, on_disk, files[i as int].entries.len())
    } else {
        first_live(root, files, on_disk, i + 1)
    }
}

/// The classpath that the cache of a project keeps; empty where nothing of it is good.
pub fn discover(root: &str, files: &Vec<CacheFile>, on_disk: &Vec<String>) -> (r: Vec<String>)
    ensures
        strs(r@) == first_live(root@, newest_first(files.deep_view()), strs(on_disk@), 0),
{
    let sorted = cp_files_newest_first(files);
    let ghost all = sorted.deep_view();
    let ghost disk = strs(on_disk@);
    let mut i: usize = 0;
    while i < sorted.len()
        invariant
            i <= sorted@.len(),
            all == sorted.deep_view(),
            all == newest_first(files.deep_view()),
            disk == strs(on_disk@),
            first_live(root@, all, disk, 0) == first_live(root@, all, disk, i as nat),
        decreases sorted@.len() - i,
    {
        assert(all[i as int] == sorted@[i as int].deep_view());
        let (entries, library) = parse_entries(root, &sorted[i].entries, on_disk);
        if library {
            return entries;
        }
        i += 1;
    }
    let none: Vec<String> = Vec::new();
    assert(strs(none@) =~= seq![]);
    none
}

/// The files of a cache are tried from the newest to the oldest.
pub proof fn law_newest_files_are_tried_first(files: Seq<CacheFileView>, i: int, j: int)
    requires
        0 <= i <= j < newest_first(files).len(),
    ensures
        newest_first(files)[i].mtime >= newest_first(files)[j].mtime,
{
    let found = classpath_files(files, files.len());
    law_arranged::<CacheFile>(found, found.len());
    assert(ordered::<CacheFile>(newest_first(files)));
    assert(CacheFile::le(newest_first(files)[i], newest_first(files)[j]));
}

/// Whatever is handed on is on disk.
pub proof fn law_entries_are_on_disk(
    root: Seq<char>,
    raw: Seq<Seq<char>>,
    on_disk: Seq<Seq<char>>,
    n: nat,
    i: int,
)
    requires
        n <= raw.len(),
        0 <= i < present_entries(root, raw, on_disk, n).len(),
    ensures
        on_disk.contains(present_entries(root, raw, on_disk, n)[i]),
    decreases n,
{
    if n > 0 {
        let before = present_entries(root, raw, on_disk, (n - 1) as nat);
        if i < before.len() {
            law_entries_are_on_disk(root, raw, on_disk, (n - 1) as nat, i);
        }
    }
}

/// The entries that count are those of the classpath that are on disk, each under the root of the
/// project where it is relative.
pub proof fn law_every_present_entry_counts(
    root: Seq<char>,
    raw: Seq<Seq<char>>,
    on_disk: Seq<Seq<char>>,
    n: nat,
    entry: Seq<char>,
)
    requires
        n <= raw.len(),
    ensures
        present_entries(root, raw, on_disk, n).contains(entry) <==> on_disk.contains(entry)
            && exists|k: int| 0 <= k < n && joined(root, #[trigger] raw[k]) == entry,
    decreases n,
{
    if n > 0 {
        law_every_present_entry_counts(root, raw, on_disk, (n - 1) as nat, entry);
        let before = present_entries(root, raw, on_disk, (n - 1) as nat);
        crate::sort::lemma_push_contains(before, joined(root, raw[n - 1]), entry);
        if exists|k: int| 0 <= k < n - 1 && joined(root, #[trigger] raw[k]) == entry {
            let k = choose|k: int| 0 <= k < n - 1 && joined(root, #[trigger] raw[k]) == entry;
            assert(joined(root, raw[k]) == entry);
        }
        assert(joined(root, raw[n - 1]) == joined(root, raw[n - 1]));
    } else {
        assert(present_entries(root, raw, on_disk, n) =~= seq![]);
    }
}

/// Of the cached classpaths the first with a library on disk counts, in the order in which they are
/// tried, and no other.
pub proof fn law_first_live_classpath_counts(
    root: Seq<char>,
    files: Seq<CacheFileView>,
    on_disk: Seq<Seq<char>>,
    i: nat,
    k: int,
)
    requires
        i <= k < files.len(),
        has_library(files[k].entries, on_disk),
        forall|j: int| i <= j < k ==> !has_library((#[trigger] files[j]).entries, on_disk),
    ensures
        first_live(root, files, on_disk, i) == present_entries(
            root,
            files[k].entries,
            on_disk,
            files[k].entries.len(),
        ),
    decreases k - i,
{
    if i < k {
        assert(!has_library(files[i as int].entries, on_disk));
        law_first_live_classpath_counts(root, files, on_disk, i + 1, k);
    }
}

/// Where no cached classpath has a library on disk there are no entries.
pub proof fn law_dead_classpaths_do_not_count(
    root: Seq<char>,
    files: Seq<CacheFileView>,
    on_disk: Seq<Seq<char>>,
    i: nat,
)
    requires
        forall|j: int|
            i <= j < files.len() ==> !has_library((#[trigger] files[j]).entries, on_disk),
    ensures
        first_live(root, files, on_disk, i) == Seq::<Seq<char>>::empty(),
    decreases files.len() - i,
{
    if i < files.len() {
        assert(!has_library(files[i as int].entries, on_disk));
        law_dead_classpaths_do_not_count(root, files, on_disk, i + 1);
    }
}

/// Of the files in the cache those with the extension `cp` are classpaths, and no others.
pub proof fn law_classpaths_are_the_cp_files(files: Seq<CacheFileView>, n: nat, file: CacheFileView)
    requires
        n <= files.len(),
    ensures
        classpath_files(files, n).contains(file) <==> extension_of(file.path) == Some("cp"@)
            && exists|k: int| 0 <= k < n && #[trigger] files[k] == file,
    decreases n,
{
    if n > 0 {
        law_classpaths_are_the_cp_files(files, (n - 1) as nat, file);
        let before = classpath_files(files, (n - 1) as nat);
        crate::sort::lemma_push_contains(before, files[n - 1], file);
        if exists|k: int| 0 <= k < n - 1 && #[trigger] files[k] == file {
            let k = choose|k: int| 0 <= k < n - 1 && #[trigger] files[k] == file;
            assert(files[k] == file);
        }
        assert(files[n - 1] == files[n - 1]);
    } else {
        assert(classpath_files(files, n) =~= seq![]);
    }
}

/// A run that ended well gives the last line that is not blank; what stands before it, and blank
/// lines behind it, do not count.
pub proof fn law_last_line_counts(
    before: Seq<char>,
    line: Seq<char>,
    i: nat,
    last: Option<Seq<char>>,
)
    requires
        i <= before.len(),
        before.len() > 0 ==> before.last() == '\n',
        !line.contains('\n'),
        trimmed(line).len() > 0,
    ensures
        last_line(before + line, i, last) == Some(line),
    decreases before.len() - i,
{
    let text = before + line;
    let stop = line_stop(text, i);
    lemma_index_from(text, '\n', i);
    if i < before.len() {
        assert(text[before.len() - 1] == '\n');
        assert(index_from(text, '\n', i) is Some);
        let j = index_from(text, '\n', i)->0;
        assert(j < before.len()) by {
            if j >= before.len() {
                assert(text[before.len() - 1] == '\n');
            }
        }
        let now = if trimmed(line_text(text, i, stop)).len() == 0 {
            last
        } else {
            Some(line_text(text, i, stop))
        };
        law_last_line_counts(before, line, (stop + 1) as nat, now);
    } else {
        if let Some(j) = index_from(text, '\n', i) {
            assert(text[j as int] == line[j - before.len()]);
            assert(line.contains('\n'));
        }
        assert(line_text(text, i, stop) =~= line);
    }
}

}
