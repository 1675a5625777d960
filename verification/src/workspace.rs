//! What the model is shown of the project: its file list, a snapshot of its files, and the lines
//! that a search finds.

use vstd::prelude::*;

use crate::clip;
use crate::number;
use crate::order;
use crate::paths;
use crate::paths::Platform;
use crate::text;
use crate::walk;

verus! {

/// The most files that the project's file list shows.
pub const MAX_TREE: usize = 400;

/// The bytes of content behind which a snapshot takes no further file.
pub const MAX_SNAPSHOT: usize = 6000;

/// The most bytes of one file that a snapshot shows.
pub const MAX_SNIPPET: usize = 2500;

/// The most lines that a search reports.
pub const MAX_HITS: usize = 60;

/// The most bytes of a line that a search reports.
pub const MAX_LINE: usize = 200;

/// The folder to work in, if one is selected.
pub fn ws_root<R>(workspace: Option<R>) -> (r: Result<R, String>)
    ensures
        match workspace {
            Some(root) => r == Ok::<R, String>(root),
            None => r matches Err(e) && e@ == "작업 폴더가 선택되지 않았습니다."@,
        },
{
    match workspace {
        Some(root) => Ok(root),
        None => Err("작업 폴더가 선택되지 않았습니다.".to_owned()),
    }
}

/// The project's file list: the first files in order, one per line.
pub open spec fn file_list(files: Seq<Seq<char>>) -> Seq<char> {
    text::join(walk::at_most_first(order::in_order(files), MAX_TREE as nat), "\n"@)
}

/// A flat, sorted list of the workspace's files.
pub fn workspace_tree(files: Vec<String>) -> (s: String)
    ensures
        s@ == file_list(text::texts(files@)),
{
    let sorted: Vec<String> = order::sort_texts(files);
    let ghost all = text::texts(sorted@);
    let n: usize = if sorted.len() <= MAX_TREE {
        sorted.len()
    } else {
        MAX_TREE
    };
    assert(all.subrange(0, n as int) =~= walk::at_most_first(all, MAX_TREE as nat));
    text::joined(&sorted, 0, n, "\n")
}

/// A file of the project: its path, and its content where that is readable text.
pub struct FileView {
    pub path: Seq<char>,
    pub content: Option<Seq<char>>,
}

/// A file of the project: its path, and its content where that is readable text.
#[derive(Debug)]
pub struct ProjectFile {
    pub path: String,
    pub content: Option<String>,
}

impl View for ProjectFile {
    type V = FileView;

    open spec fn view(&self) -> FileView {
        FileView {
            path: self.path@,
            content: match self.content {
                Some(content) => Some(content@),
                None => None,
            },
        }
    }
}

/// What the files of `v` hold.
pub open spec fn project(v: Seq<ProjectFile>) -> Seq<FileView> {
    v.map_values(|f: ProjectFile| f@)
}

/// How a file is shown: its path on a line of its own, then `shown`, then a blank line.
pub open spec fn file_section(path: Seq<char>, shown: Seq<char>) -> Seq<char> {
    "--- "@ + path + " ---\n"@ + shown + "\n\n"@
}

/// How a file is shown: its path on a line of its own, then `shown`, then a blank line.
pub fn section_of(path: &str, shown: &str) -> (s: String)
    ensures
        s@ == file_section(path@, shown@),
{
    let mut s: String = "--- ".to_owned();
    s.append(path);
    s.append(" ---\n");
    s.append(shown);
    s.append("\n\n");
    s
}

/// The part of a file's content that a snapshot shows.
pub open spec fn snippet(content: Seq<char>) -> Seq<char> {
    clip::head(content, MAX_SNIPPET as nat)
}

/// What a snapshot says of `files`, where the files before them took `total` bytes.
pub open spec fn snapshot_from(files: Seq<FileView>, total: nat) -> Seq<char>
    decreases files.len(),
{
    if files.len() == 0 {
        seq![]
    } else if total > MAX_SNAPSHOT {
        "...(나머지 파일 생략)...\n"@
    } else {
        match files[0].content {
            Some(content) => file_section(files[0].path, snippet(content)) + snapshot_from(
                files.drop_first(),
                total + clip::byte_len(snippet(content)),
            ),
            None => snapshot_from(files.drop_first(), total),
        }
    }
}

/// A snapshot of the project, as far as it is taken.
#[derive(Debug)]
pub struct Snapshot {
    out: String,
    total: usize,
}

impl Snapshot {
    /// What the snapshot says so far.
    pub closed spec fn text(&self) -> Seq<char> {
        self.out@
    }

    /// The bytes of content that it shows so far.
    pub closed spec fn total(&self) -> nat {
        self.total as nat
    }

    /// A snapshot of nothing.
    pub fn new() -> (s: Snapshot)
        ensures
            s.text() == Seq::<char>::empty(),
            s.total() == 0,
    {
        Snapshot { out: String::new(), total: 0 }
    }

    /// Whether a further file is taken. Where it is not, the snapshot says so, and is complete.
    pub fn wants_file(&mut self) -> (b: bool)
        ensures
            b == (old(self).total() <= MAX_SNAPSHOT),
            final(self).total() == old(self).total(),
            final(self).text() == (if b {
                old(self).text()
            } else {
                old(self).text() + "...(나머지 파일 생략)...\n"@
            }),
    {
        if self.total > MAX_SNAPSHOT {
            self.out.append("...(나머지 파일 생략)...\n");
            false
        } else {
            true
        }
    }

    /// Takes a file.
    pub fn add_file(&mut self, path: &str, content: &str)
        requires
            old(self).total() <= MAX_SNAPSHOT,
        ensures
            final(self).text() == old(self).text() + file_section(path@, snippet(content@)),
            final(self).total() == old(self).total() + clip::byte_len(snippet(content@)),
            final(self).total() <= MAX_SNAPSHOT + MAX_SNIPPET,
    {
        let shown: &str = clip::truncate_str(content, MAX_SNIPPET);
        proof {
            clip::head_is_longest_that_fits(content@, MAX_SNIPPET as nat);
        }
        self.out.append(section_of(path, shown).as_str());
        self.total = self.total + clip::bytes_of(shown);
    }

    /// What the snapshot says.
    pub fn finish(self) -> (s: String)
        ensures
            s@ == self.text(),
    {
        self.out
    }
}

/// A snapshot of the workspace's text files, so that the model can see and edit existing code.
/// `files` are in order. Taking them one by one with a [`Snapshot`], and none that it does not
/// want, comes to the same.
pub fn workspace_snapshot(files: &Vec<ProjectFile>) -> (s: String)
    ensures
        s@ == snapshot_from(project(files@), 0),
{
    let ghost all = project(files@);
    let mut snapshot: Snapshot = Snapshot::new();
    let mut i: usize = 0;
    assert(all.skip(0) =~= all);
    assert(snapshot.text() + snapshot_from(all, 0) =~= snapshot_from(all, 0));
    while i < files.len()
        invariant
            all == project(files@),
            i <= files@.len(),
            snapshot.text() + snapshot_from(all.skip(i as int), snapshot.total()) == snapshot_from(
                all,
                0,
            ),
        decreases files@.len() - i,
    {
        assert(all[i as int] == files@[i as int]@);
        let ghost here = all.skip(i as int);
        let ghost before = snapshot;
        assert(here.drop_first() =~= all.skip(i + 1));
        if !snapshot.wants_file() {
            return snapshot.finish();
        }
        if let Some(content) = &files[i].content {
            snapshot.add_file(files[i].path.as_str(), content.as_str());
            assert(snapshot.text() + snapshot_from(here.drop_first(), snapshot.total())
                =~= before.text() + snapshot_from(here, before.total()));
        }
        i = i + 1;
    }
    assert(snapshot.text() + snapshot_from(all.skip(i as int), snapshot.total())
        =~= snapshot.text());
    snapshot.finish()
}

/// How the line `line`, the one with this number in the file `path`, is reported.
pub open spec fn hit_line(path: Seq<char>, number: nat, line: Seq<char>) -> Seq<char> {
    path + ":"@ + number::decimal(number) + ": "@ + clip::head(text::trim(line), MAX_LINE as nat)
        + "\n"@
}

/// A line contains what is searched for, without regard to case.
pub open spec fn is_hit(line: Seq<char>, needle: Seq<char>) -> bool {
    text::occurs(text::lowercase(line), needle)
}

/// What is reported of the last lines of a file, and how many lines are then reported in all:
/// `before` is the number of lines before them, and `hits` that of the reported ones.
pub open spec fn lines_report(
    path: Seq<char>,
    lines: Seq<Seq<char>>,
    before: nat,
    needle: Seq<char>,
    hits: nat,
) -> (Seq<char>, nat)
    decreases lines.len(),
{
    if lines.len() == 0 || hits >= MAX_HITS {
        (seq![], hits)
    } else if is_hit(lines[0], needle) {
        let (rest, total) = lines_report(path, lines.drop_first(), before + 1, needle, hits + 1);
        (hit_line(path, before + 1, lines[0]) + rest, total)
    } else {
        lines_report(path, lines.drop_first(), before + 1, needle, hits)
    }
}

/// What is reported of `files`, where `hits` lines were reported of the files before them.
pub open spec fn files_report(files: Seq<FileView>, needle: Seq<char>, hits: nat) -> Seq<char>
    decreases files.len(),
{
    if files.len() == 0 {
        seq![]
    } else if hits >= MAX_HITS {
        "...(검색 결과 더 있음)...\n"@
    } else {
        match files[0].content {
            Some(content) => {
                let (report, total) = lines_report(
                    files[0].path,
                    text::lines(content),
                    0,
                    needle,
                    hits,
                );
                report + files_report(files.drop_first(), needle, total)
            },
            None => files_report(files.drop_first(), needle, hits),
        }
    }
}

/// What a search for `pattern` reports, where `report` is what it found.
pub open spec fn search_answer(pattern: Seq<char>, report: Seq<char>) -> Seq<char> {
    if pattern.len() == 0 {
        "(빈 검색어)"@
    } else if report.len() == 0 {
        "'"@ + pattern + "' 검색 결과 없음"@
    } else {
        report
    }
}

/// What a search of `files` for `pattern` answers.
pub open spec fn search_result(pattern: Seq<char>, files: Seq<FileView>) -> Seq<char> {
    search_answer(pattern, files_report(files, text::lowercase(pattern), 0))
}

/// A search of the project, as far as it has come.
#[derive(Debug)]
pub struct Search {
    needle: String,
    out: String,
    hits: usize,
}

impl Search {
    /// What is searched for, in lower case.
    pub closed spec fn needle(&self) -> Seq<char> {
        self.needle@
    }

    /// What is reported so far.
    pub closed spec fn text(&self) -> Seq<char> {
        self.out@
    }

    /// The number of lines that are reported so far.
    pub closed spec fn hits(&self) -> nat {
        self.hits as nat
    }

    /// A search for what is `needle` in lower case.
    pub fn for_lowercase(needle: String) -> (s: Search)
        ensures
            s.needle() == needle@,
            s.text() == Seq::<char>::empty(),
            s.hits() == 0,
    {
        Search { needle, out: String::new(), hits: 0 }
    }

    /// A search for `pattern`, without regard to case.
    pub fn new(pattern: &str) -> (s: Search)
        ensures
            s.needle() == text::lowercase(pattern@),
            s.text() == Seq::<char>::empty(),
            s.hits() == 0,
    {
        Self::for_lowercase(text::lowercased(pattern))
    }

    /// Whether a further file is searched. Where it is not, the report says so, and is complete.
    pub fn wants_file(&mut self) -> (b: bool)
        ensures
            b == (old(self).hits() < MAX_HITS),
            final(self).needle() == old(self).needle(),
            final(self).hits() == old(self).hits(),
            final(self).text() == (if b {
                old(self).text()
            } else {
                old(self).text() + "...(검색 결과 더 있음)...\n"@
            }),
    {
        if self.hits >= MAX_HITS {
            self.out.append("...(검색 결과 더 있음)...\n");
            false
        } else {
            true
        }
    }

    /// Looks at one line, whose lower case is `lower`, and reports it if it is a hit.
    pub fn look_at(&mut self, path: &str, number: u64, line: &str, lower: &str)
        requires
            old(self).hits() < MAX_HITS,
        ensures
            final(self).needle() == old(self).needle(),
            if text::occurs(lower@, old(self).needle()) {
                &&& final(self).text() == old(self).text() + hit_line(path@, number as nat, line@)
                &&& final(self).hits() == old(self).hits() + 1
            } else {
                &&& final(self).text() == old(self).text()
                &&& final(self).hits() == old(self).hits()
            },
    {
        if text::contains(lower, self.needle.as_str()) {
            let trimmed: String = text::trimmed(line);
            let mut hit: String = path.to_owned();
            hit.append(":");
            hit.append(number::decimal_text(number).as_str());
            hit.append(": ");
            hit.append(clip::truncate_str(trimmed.as_str(), MAX_LINE));
            hit.append("\n");
            self.out.append(hit.as_str());
            self.hits = self.hits + 1;
        }
    }

    /// Searches a file.
    pub fn add_file(&mut self, path: &str, content: &str)
        requires
            old(self).hits() < MAX_HITS,
        ensures
            final(self).needle() == old(self).needle(),
            ({
                let (report, total) = lines_report(
                    path@,
                    text::lines(content@),
                    0,
                    old(self).needle(),
                    old(self).hits(),
                );
                &&& final(self).text() == old(self).text() + report
                &&& final(self).hits() == total
            }),
    {
        let lines: Vec<String> = text::lines_of(content);
        let ghost all = text::lines(content@);
        let ghost whole = lines_report(path@, all, 0, self.needle(), self.hits());
        let n: usize = lines.len();
        assert(all.len() == n) by {
            assert(text::texts(lines@).len() == n);
        }
        let mut i: usize = 0;
        assert(all.skip(0) =~= all);
        while i < n && self.hits < MAX_HITS
            invariant
                all == text::texts(lines@),
                i <= n == lines@.len(),
                n <= u64::MAX,
                self.needle() == old(self).needle(),
                ({
                    let (rest, total) = lines_report(
                        path@,
                        all.skip(i as int),
                        i as nat,
                        self.needle(),
                        self.hits(),
                    );
                    &&& self.text() + rest == old(self).text() + whole.0
                    &&& total == whole.1
                }),
            decreases n - i,
        {
            let ghost here = all.skip(i as int);
            let ghost before = *self;
            assert(here[0] == lines@[i as int]@);
            assert(here.drop_first() =~= all.skip(i + 1));
            let lower: String = text::lowercased(lines[i].as_str());
            let number: u64 = i as u64 + 1;
            self.look_at(path, number, lines[i].as_str(), lower.as_str());
            proof {
                if is_hit(here[0], before.needle()) {
                    let rest = lines_report(
                        path@,
                        here.drop_first(),
                        (i + 1) as nat,
                        before.needle(),
                        before.hits() + 1,
                    ).0;
                    assert(self.text() + rest =~= before.text() + (hit_line(
                        path@,
                        (i + 1) as nat,
                        here[0],
                    ) + rest));
                }
            }
            i = i + 1;
        }
        assert(self.text() + Seq::<char>::empty() =~= self.text());
    }

    /// What is answered to the search for `pattern`.
    pub fn finish(self, pattern: &str) -> (s: String)
        ensures
            s@ == search_answer(pattern@, self.text()),
    {
        if pattern.is_empty() {
            "(빈 검색어)".to_owned()
        } else if self.out.as_str().is_empty() {
            let mut s: String = "'".to_owned();
            s.append(pattern);
            s.append("' 검색 결과 없음");
            s
        } else {
            self.out
        }
    }
}

/// Searches the workspace's text files for `pattern`, without regard to case. `files` are in order.
/// Searching them one by one with a [`Search`], and none that it does not want, comes to the same.
pub fn search_workspace(pattern: &str, files: &Vec<ProjectFile>) -> (s: String)
    ensures
        s@ == search_answer(
            pattern@,
            files_report(project(files@), text::lowercase(pattern@), 0),
        ),
        s@ == search_result(pattern@, project(files@)),
{
    let ghost all = project(files@);
    let ghost needle = text::lowercase(pattern@);
    let mut search: Search = Search::new(pattern);
    let mut i: usize = 0;
    assert(all.skip(0) =~= all);
    assert(search.text() + files_report(all, needle, 0) =~= files_report(all, needle, 0));
    while i < files.len()
        invariant
            all == project(files@),
            i <= files@.len(),
            search.needle() == needle,
            needle == text::lowercase(pattern@),
            search.text() + files_report(all.skip(i as int), needle, search.hits()) == files_report(
                all,
                needle,
                0,
            ),
        decreases files@.len() - i,
    {
        assert(all[i as int] == files@[i as int]@);
        let ghost here = all.skip(i as int);
        let ghost before = search;
        assert(here.drop_first() =~= all.skip(i + 1));
        if !search.wants_file() {
            return search.finish(pattern);
        }
        if let Some(content) = &files[i].content {
            search.add_file(files[i].path.as_str(), content.as_str());
            assert(search.text() + files_report(here.drop_first(), needle, search.hits())
                =~= before.text() + files_report(here, needle, before.hits()));
        }
        i = i + 1;
    }
    assert(search.text() + files_report(all.skip(i as int), needle, search.hits())
        =~= search.text());
    search.finish(pattern)
}

/// No more lines are reported than the limit allows.
pub proof fn reports_keep_to_the_limit(
    path: Seq<char>,
    lines: Seq<Seq<char>>,
    before: nat,
    needle: Seq<char>,
    hits: nat,
)
    requires
        hits <= MAX_HITS,
    ensures
        hits <= lines_report(path, lines, before, needle, hits).1 <= MAX_HITS,
    decreases lines.len(),
{
    if lines.len() > 0 && hits < MAX_HITS {
        if is_hit(lines[0], needle) {
            reports_keep_to_the_limit(path, lines.drop_first(), before + 1, needle, hits + 1);
        } else {
            reports_keep_to_the_limit(path, lines.drop_first(), before + 1, needle, hits);
        }
    }
}

/// How the readable ones of `files` are shown, all of them.
pub open spec fn all_sections(files: Seq<FileView>) -> Seq<char>
    decreases files.len(),
{
    if files.len() == 0 {
        seq![]
    } else {
        let rest = all_sections(files.drop_first());
        match files[0].content {
            Some(content) => file_section(files[0].path, snippet(content)) + rest,
            None => rest,
        }
    }
}

/// The bytes of content that it takes to show `files`.
pub open spec fn snippet_bytes(files: Seq<FileView>) -> nat
    decreases files.len(),
{
    if files.len() == 0 {
        0
    } else {
        let rest = snippet_bytes(files.drop_first());
        match files[0].content {
            Some(content) => clip::byte_len(snippet(content)) + rest,
            None => rest,
        }
    }
}

/// A snapshot of a project that keeps to the limit shows every readable file.
pub proof fn small_projects_are_shown_whole(files: Seq<FileView>, total: nat)
    requires
        total + snippet_bytes(files) <= MAX_SNAPSHOT,
    ensures
        snapshot_from(files, total) == all_sections(files),
    decreases files.len(),
{
    if files.len() > 0 {
        let rest = files.drop_first();
        match files[0].content {
            Some(content) => {
                small_projects_are_shown_whole(rest, total + clip::byte_len(snippet(content)));
            },
            None => {
                small_projects_are_shown_whole(rest, total);
            },
        }
    }
}

/// The first `n` of `files` are those that a snapshot shows: what stands before the last of them
/// keeps to the limit, and they are all the files or go over it.
pub open spec fn cuts_at(files: Seq<FileView>, n: int) -> bool {
    &&& 0 <= n <= files.len()
    &&& n > 0 ==> snippet_bytes(files.take(n - 1)) <= MAX_SNAPSHOT
    &&& n < files.len() ==> snippet_bytes(files.take(n)) > MAX_SNAPSHOT
}

/// What a snapshot of `files` says that shows the first `n` of them: these, and a notice where
/// files are left.
pub open spec fn snapshot_cut_at(files: Seq<FileView>, n: int) -> Seq<char> {
    all_sections(files.take(n)) + (if n < files.len() {
        "...(나머지 파일 생략)...\n"@
    } else {
        seq![]
    })
}

proof fn lemma_snippet_bytes_at(files: Seq<FileView>, n: int)
    requires
        0 < n <= files.len(),
    ensures
        snippet_bytes(files.take(n)) == snippet_bytes(files.take(1)) + snippet_bytes(
            files.drop_first().take(n - 1),
        ),
        snippet_bytes(files.take(1)) == (match files[0].content {
            Some(content) => clip::byte_len(snippet(content)),
            None => 0,
        }),
        files.take(n).drop_first() == files.drop_first().take(n - 1),
{
    assert(files.take(n).drop_first() =~= files.drop_first().take(n - 1));
    assert(files.take(n)[0] == files[0]);
    assert(files.take(1)[0] == files[0]);
    assert(files.take(1).drop_first() =~= seq![]);
    assert(snippet_bytes(files.take(1).drop_first()) == 0);
}

proof fn lemma_snapshot_at(files: Seq<FileView>, total: nat, n: int)
    requires
        0 <= n <= files.len(),
        n > 0 ==> total + snippet_bytes(files.take(n - 1)) <= MAX_SNAPSHOT,
        n < files.len() ==> total + snippet_bytes(files.take(n)) > MAX_SNAPSHOT,
    ensures
        snapshot_from(files, total) == snapshot_cut_at(files, n),
    decreases files.len(),
{
    assert(files.take(0) =~= seq![]);
    if files.len() == 0 {
        assert(snapshot_cut_at(files, n) =~= seq![]);
    } else if n == 0 {
        assert(snapshot_cut_at(files, n) =~= "...(나머지 파일 생략)...\n"@);
    } else {
        let rest = files.drop_first();
        let here = snippet_bytes(files.take(1));
        lemma_snippet_bytes_at(files, n);
        if n > 1 {
            lemma_snippet_bytes_at(files, n - 1);
        }
        assert(rest.take(0) =~= seq![]);
        lemma_snapshot_at(rest, total + here, n - 1);
        assert(files.take(n)[0] == files[0]);
        assert(snapshot_from(files, total) =~= snapshot_cut_at(files, n));
    }
}

proof fn lemma_snippet_bytes_of_one_more(files: Seq<FileView>, n: int)
    requires
        0 < n <= files.len(),
    ensures
        snippet_bytes(files.take(n - 1)) <= snippet_bytes(files.take(n)) <= snippet_bytes(
            files.take(n - 1),
        ) + MAX_SNIPPET,
    decreases n,
{
    lemma_snippet_bytes_at(files, n);
    if n == 1 {
        assert(files.take(0) =~= seq![]);
        assert(files.drop_first().take(0) =~= seq![]);
        if let Some(content) = files[0].content {
            clip::head_is_longest_that_fits(content, MAX_SNIPPET as nat);
        }
    } else {
        lemma_snippet_bytes_at(files, n - 1);
        lemma_snippet_bytes_of_one_more(files.drop_first(), n - 1);
    }
}

proof fn lemma_some_cut(files: Seq<FileView>, n: int) -> (m: int)
    requires
        0 <= n <= files.len(),
        n > 0 ==> snippet_bytes(files.take(n - 1)) <= MAX_SNAPSHOT,
    ensures
        cuts_at(files, m),
    decreases files.len() - n,
{
    if n < files.len() && snippet_bytes(files.take(n)) <= MAX_SNAPSHOT {
        lemma_some_cut(files, n + 1)
    } else {
        n
    }
}

/// A snapshot shows files in order up to the one that goes over the limit, and with it no more
/// content than that one adds; behind them a notice stands exactly where files are left.
pub proof fn snapshots_end_behind_the_limit(files: Seq<FileView>)
    ensures
        exists|n: int| cuts_at(files, n),
        forall|n: int| #[trigger]
            cuts_at(files, n) ==> {
                &&& snapshot_from(files, 0) == snapshot_cut_at(files, n)
                &&& snippet_bytes(files.take(n)) <= MAX_SNAPSHOT + MAX_SNIPPET
            },
{
    let m = lemma_some_cut(files, 0);
    assert(cuts_at(files, m));
    assert forall|n: int| #[trigger] cuts_at(files, n) implies {
        &&& snapshot_from(files, 0) == snapshot_cut_at(files, n)
        &&& snippet_bytes(files.take(n)) <= MAX_SNAPSHOT + MAX_SNIPPET
    } by {
        lemma_snapshot_at(files, 0, n);
        if n > 0 {
            lemma_snippet_bytes_of_one_more(files, n);
        } else {
            assert(files.take(0) =~= seq![]);
        }
    }
}

/// The hits among the last lines of a file, as they are reported: `before` is the number of lines
/// before them.
pub open spec fn hits_in_lines(
    path: Seq<char>,
    lines: Seq<Seq<char>>,
    before: nat,
    needle: Seq<char>,
) -> Seq<Seq<char>>
    decreases lines.len(),
{
    if lines.len() == 0 {
        seq![]
    } else {
        let rest = hits_in_lines(path, lines.drop_first(), before + 1, needle);
        if is_hit(lines[0], needle) {
            seq![hit_line(path, before + 1, lines[0])] + rest
        } else {
            rest
        }
    }
}

/// The hits in a file, as they are reported.
pub open spec fn hits_in_file(file: FileView, needle: Seq<char>) -> Seq<Seq<char>> {
    match file.content {
        Some(content) => hits_in_lines(file.path, text::lines(content), 0, needle),
        None => seq![],
    }
}

/// The hits in `files`, as they are reported.
pub open spec fn hits_in_files(files: Seq<FileView>, needle: Seq<char>) -> Seq<Seq<char>>
    decreases files.len(),
{
    if files.len() == 0 {
        seq![]
    } else {
        hits_in_file(files[0], needle) + hits_in_files(files.drop_first(), needle)
    }
}

proof fn lemma_first_hits_of_a_file(
    path: Seq<char>,
    lines: Seq<Seq<char>>,
    before: nat,
    needle: Seq<char>,
    hits: nat,
)
    requires
        hits <= MAX_HITS,
    ensures
        ({
            let all = hits_in_lines(path, lines, before, needle);
            let first = walk::at_most_first(all, (MAX_HITS - hits) as nat);
            lines_report(path, lines, before, needle, hits) == (
                first.flatten(),
                hits + first.len(),
            )
        }),
    decreases lines.len(),
{
    let all = hits_in_lines(path, lines, before, needle);
    let room = (MAX_HITS - hits) as nat;
    let first = walk::at_most_first(all, room);
    if lines.len() == 0 || hits == MAX_HITS {
        assert(first =~= seq![]);
        assert(first.flatten() =~= seq![]);
    } else {
        let rest = lines.drop_first();
        if is_hit(lines[0], needle) {
            lemma_first_hits_of_a_file(path, rest, before + 1, needle, hits + 1);
            let line = hit_line(path, before + 1, lines[0]);
            let others = walk::at_most_first(
                hits_in_lines(path, rest, before + 1, needle),
                (room - 1) as nat,
            );
            assert(first =~= seq![line] + others);
            assert(first.drop_first() =~= others);
            assert(first.flatten() =~= line + others.flatten());
        } else {
            lemma_first_hits_of_a_file(path, rest, before + 1, needle, hits);
        }
    }
}

/// What a search says behind its hits, where `hits` were found before `files`: a notice where a
/// file is left once there are enough.
pub open spec fn notice_behind(files: Seq<FileView>, needle: Seq<char>, hits: nat) -> Seq<char> {
    if files.len() > 0 && hits + hits_in_files(files.drop_last(), needle).len() >= MAX_HITS {
        "...(검색 결과 더 있음)...\n"@
    } else {
        seq![]
    }
}

proof fn lemma_first_hits(files: Seq<FileView>, needle: Seq<char>, hits: nat)
    requires
        hits <= MAX_HITS,
    ensures
        files_report(files, needle, hits) == walk::at_most_first(
            hits_in_files(files, needle),
            (MAX_HITS - hits) as nat,
        ).flatten() + notice_behind(files, needle, hits),
    decreases files.len(),
{
    let all = hits_in_files(files, needle);
    let room = (MAX_HITS - hits) as nat;
    let first = walk::at_most_first(all, room);
    let notice = notice_behind(files, needle, hits);
    if files.len() == 0 || hits == MAX_HITS {
        assert(first =~= seq![]);
        assert(first.flatten() + notice =~= files_report(files, needle, hits));
    } else {
        let rest = files.drop_first();
        let here = hits_in_file(files[0], needle);
        let shown = walk::at_most_first(here, room);
        if let Some(content) = files[0].content {
            lemma_first_hits_of_a_file(files[0].path, text::lines(content), 0, needle, hits);
        } else {
            assert(shown.flatten() =~= seq![]);
        }
        lemma_first_hits(rest, needle, hits + shown.len());
        let others = walk::at_most_first(
            hits_in_files(rest, needle),
            (room - shown.len()) as nat,
        );
        assert(first =~= shown + others);
        vstd::seq_lib::lemma_flatten_concat(shown, others);
        if rest.len() > 0 {
            let init = files.drop_last();
            assert(init.drop_first() =~= rest.drop_last());
            assert(init[0] == files[0]);
        } else {
            assert(files.drop_last() =~= seq![]);
        }
        assert(notice == notice_behind(rest, needle, hits + shown.len()));
        assert(files_report(files, needle, hits) =~= shown.flatten() + files_report(
            rest,
            needle,
            hits + shown.len(),
        ));
        assert(files_report(files, needle, hits) =~= first.flatten() + notice);
    }
}

/// A search reports the hits in their order, all of them or exactly as many as the limit allows;
/// behind them a notice stands exactly where the files before the last one hold as many as that,
/// so that a file is left.
pub proof fn searches_report_the_first_hits(files: Seq<FileView>, needle: Seq<char>)
    ensures
        files_report(files, needle, 0) == walk::at_most_first(
            hits_in_files(files, needle),
            MAX_HITS as nat,
        ).flatten() + notice_behind(files, needle, 0),
        hits_in_files(files, needle).len() < MAX_HITS ==> files_report(files, needle, 0)
            == hits_in_files(files, needle).flatten(),
{
    lemma_first_hits(files, needle, 0);
    let all = hits_in_files(files, needle);
    if all.len() < MAX_HITS {
        if files.len() > 0 {
            lemma_hits_of_fewer_files(files, needle);
        }
        assert(all.flatten() + seq![] =~= all.flatten());
    }
}

proof fn lemma_hits_of_fewer_files(files: Seq<FileView>, needle: Seq<char>)
    requires
        files.len() > 0,
    ensures
        hits_in_files(files.drop_last(), needle).len() <= hits_in_files(files, needle).len(),
    decreases files.len(),
{
    let init = files.drop_last();
    if init.len() > 0 {
        lemma_hits_of_fewer_files(files.drop_first(), needle);
        assert(init.drop_first() =~= files.drop_first().drop_last());
        assert(init[0] == files[0]);
    }
}

/// No line of the file is a hit.
pub open spec fn is_missed(file: FileView, needle: Seq<char>) -> bool {
    file.content matches Some(content) ==> forall|k: int|
        0 <= k < text::lines(content).len() ==> !is_hit(#[trigger] text::lines(content)[k], needle)
}

/// A search reports nothing exactly where no line of a readable file is a hit, and then answers
/// that nothing was found.
pub proof fn nothing_found_means_no_hit(pattern: Seq<char>, files: Seq<FileView>)
    requires
        pattern.len() > 0,
    ensures
        files_report(files, text::lowercase(pattern), 0).len() == 0 <==> (forall|i: int|
            0 <= i < files.len() ==> is_missed(#[trigger] files[i], text::lowercase(pattern))),
        (forall|i: int|
            0 <= i < files.len() ==> is_missed(#[trigger] files[i], text::lowercase(pattern)))
            ==> search_answer(pattern, files_report(files, text::lowercase(pattern), 0)) == "'"@
            + pattern + "' 검색 결과 없음"@,
{
    lemma_empty_report(files, text::lowercase(pattern));
}

proof fn lemma_empty_lines_report(
    path: Seq<char>,
    lines: Seq<Seq<char>>,
    before: nat,
    needle: Seq<char>,
)
    ensures
        ({
            let (report, total) = lines_report(path, lines, before, needle, 0);
            &&& report.len() == 0 <==> total == 0
            &&& report.len() == 0 <==> (forall|k: int|
                0 <= k < lines.len() ==> !is_hit(#[trigger] lines[k], needle))
        }),
    decreases lines.len(),
{
    if lines.len() > 0 {
        let rest = lines.drop_first();
        if is_hit(lines[0], needle) {
            reports_keep_to_the_limit(path, rest, before + 1, needle, 1);
            reveal_strlit(":");
        } else {
            lemma_empty_lines_report(path, rest, before + 1, needle);
            let none = forall|k: int| 0 <= k < lines.len() ==> !is_hit(#[trigger] lines[k], needle);
            let none_left = forall|k: int|
                0 <= k < rest.len() ==> !is_hit(#[trigger] rest[k], needle);
            if none_left {
                assert forall|k: int| 0 <= k < lines.len() implies !is_hit(
                    #[trigger] lines[k],
                    needle,
                ) by {
                    if k > 0 {
                        assert(rest[k - 1] == lines[k]);
                    }
                }
            }
            if none {
                assert forall|k: int| 0 <= k < rest.len() implies !is_hit(
                    #[trigger] rest[k],
                    needle,
                ) by {
                    assert(rest[k] == lines[k + 1]);
                }
            }
        }
    }
}

proof fn lemma_empty_report(files: Seq<FileView>, needle: Seq<char>)
    ensures
        files_report(files, needle, 0).len() == 0 <==> (forall|i: int|
            0 <= i < files.len() ==> is_missed(#[trigger] files[i], needle)),
    decreases files.len(),
{
    if files.len() > 0 {
        let rest = files.drop_first();
        if let Some(content) = files[0].content {
            lemma_empty_lines_report(files[0].path, text::lines(content), 0, needle);
        }
        if is_missed(files[0], needle) {
            lemma_empty_report(rest, needle);
            assert(forall|i: int| 0 < i < files.len() ==> rest[i - 1] == #[trigger] files[i]);
            assert(forall|i: int| 0 <= i < rest.len() ==> #[trigger] rest[i] == files[i + 1]);
        }
    }
}

/// A snapshot goes on file by file. Of a readable file it shows, behind the whole path, the
/// longest beginning of the content that keeps to the limit, and counts its bytes; an unreadable
/// file it passes over; and once too much was counted, it ends with a notice.
pub proof fn snapshots_show_the_beginning_of_each_file(
    path: Seq<char>,
    content: Seq<char>,
    rest: Seq<FileView>,
    total: nat,
)
    ensures
        forall|shown: Seq<char>| #[trigger]
            clip::is_longest_beginning(shown, content, 2500) && total <= 6000 ==> snapshot_from(
                seq![FileView { path, content: Some(content) }] + rest,
                total,
            ) == "--- "@ + path + " ---\n"@ + shown + "\n\n"@ + snapshot_from(
                rest,
                total + clip::byte_len(shown),
            ),
        exists|shown: Seq<char>| #[trigger] clip::is_longest_beginning(shown, content, 2500),
        total <= 6000 ==> snapshot_from(
            seq![FileView { path, content: None }] + rest,
            total,
        ) == snapshot_from(rest, total),
        total > 6000 ==> snapshot_from(
            seq![FileView { path, content: Some(content) }] + rest,
            total,
        ) == "...(나머지 파일 생략)...\n"@ && snapshot_from(
            seq![FileView { path, content: None }] + rest,
            total,
        ) == "...(나머지 파일 생략)...\n"@,
        snapshot_from(seq![], total) == Seq::<char>::empty(),
{
    let kept = clip::head(content, 2500);
    clip::the_longest_beginning_is_kept(kept, content, 2500);
    let file = FileView { path, content: Some(content) };
    let unreadable = FileView { path, content: None };
    assert((seq![file] + rest).drop_first() =~= rest);
    assert((seq![unreadable] + rest).drop_first() =~= rest);
    assert forall|shown: Seq<char>| #[trigger]
        clip::is_longest_beginning(shown, content, 2500) && total <= 6000 implies snapshot_from(
        seq![file] + rest,
        total,
    ) == "--- "@ + path + " ---\n"@ + shown + "\n\n"@ + snapshot_from(
        rest,
        total + clip::byte_len(shown),
    ) by {
        clip::the_longest_beginning_is_kept(shown, content, 2500);
    }
}

/// The report of a hit names its file and its line: it begins with the whole path, directly
/// followed by a colon, the number of the line in digits, a colon and a blank, and then comes the
/// longest beginning of the trimmed line that keeps to the limit.
pub proof fn hits_name_their_file_and_line(path: Seq<char>, number: nat, line: Seq<char>)
    ensures
        ({
            let hit = hit_line(path, number, line);
            let n = path.len() as int;
            let k = text::position_of(hit.skip(n + 1), ':');
            let digits = hit.skip(n + 1).take(k);
            let shown = hit.subrange(n + k + 3, hit.len() - 1);
            &&& n + k + 3 < hit.len()
            &&& hit.take(n) == path
            &&& hit[n] == ':'
            &&& number::all_digits(digits)
            &&& number::digits_value(digits) == number
            &&& hit[n + k + 1] == ':'
            &&& hit[n + k + 2] == ' '
            &&& clip::is_longest_beginning(shown, text::trim(line), 200)
            &&& hit.last() == '\n'
        }),
{
    reveal_strlit(":");
    reveal_strlit(": ");
    reveal_strlit("\n");
    let hit = hit_line(path, number, line);
    let n = path.len() as int;
    let d = number::decimal(number);
    let kept = clip::head(text::trim(line), 200);
    let rest = hit.skip(n + 1);
    let k = d.len() as int;
    number::lemma_decimal_reads_back(number);
    clip::the_longest_beginning_is_kept(kept, text::trim(line), 200);
    assert(hit.take(n) =~= path);
    assert(rest.take(k) =~= d);
    assert forall|i: int| 0 <= i < k implies rest[i] != ':' by {
        assert(rest[i] == d[i]);
        assert(number::is_digit(d[i]));
    }
    assert(rest[k] == ':');
    text::lemma_position_is(rest, ':', k);
    assert(hit.subrange(n + k + 3, hit.len() - 1) =~= kept);
}

/// The path in front of a hit leads to the file that holds the line: where the path is that of
/// names of entries, it resolves to those names.
pub proof fn hits_lead_to_their_file(
    platform: Platform,
    names: Seq<Seq<char>>,
    number: nat,
    line: Seq<char>,
)
    requires
        names.len() > 0,
        forall|k: int| 0 <= k < names.len() ==> paths::is_entry_name(platform, #[trigger] names[k]),
    ensures
        ({
            let path = text::join(names, "/"@);
            paths::relative_names(
                platform,
                hit_line(path, number, line).take(path.len() as int),
            ) == Ok::<Seq<Seq<char>>, Seq<char>>(names)
        }),
{
    let path = text::join(names, "/"@);
    hits_name_their_file_and_line(path, number, line);
    paths::joined_names_lead_back(platform, names);
}

/// The hits of a file are those of its lines, in order: a line is one exactly where its lower case
/// holds what is searched for, and it is reported with the number of its place, counted from one.
pub proof fn hits_are_the_lines_that_hold_the_text(
    path: Seq<char>,
    a: Seq<Seq<char>>,
    line: Seq<char>,
    b: Seq<Seq<char>>,
    before: nat,
    needle: Seq<char>,
)
    ensures
        hits_in_lines(path, a + b, before, needle) == hits_in_lines(path, a, before, needle)
            + hits_in_lines(path, b, before + a.len(), needle),
        text::occurs(text::lowercase(line), needle) ==> hits_in_lines(
            path,
            seq![line],
            before,
            needle,
        ) == seq![hit_line(path, before + 1, line)],
        !text::occurs(text::lowercase(line), needle) ==> hits_in_lines(
            path,
            seq![line],
            before,
            needle,
        ) == Seq::<Seq<char>>::empty(),
    decreases a.len(),
{
    let none = Seq::<Seq<char>>::empty();
    assert(seq![line].drop_first() =~= none);
    assert(hits_in_lines(path, none, before + 1, needle) =~= none);
    assert(seq![hit_line(path, before + 1, line)] + none =~= seq![
        hit_line(path, before + 1, line),
    ]);
    if a.len() == 0 {
        assert(a + b =~= b);
        assert(hits_in_lines(path, a, before, needle) + hits_in_lines(path, b, before, needle)
            =~= hits_in_lines(path, b, before, needle));
    } else {
        hits_are_the_lines_that_hold_the_text(path, a.drop_first(), line, b, before + 1, needle);
        assert((a + b).drop_first() =~= a.drop_first() + b);
        assert((a + b)[0] == a[0]);
        assert(hits_in_lines(path, a + b, before, needle) =~= hits_in_lines(
            path,
            a,
            before,
            needle,
        ) + hits_in_lines(path, b, before + a.len(), needle));
    }
}

/// The hits of a project are those of its files, in order: of a readable file the hits among all
/// of its lines, of an unreadable one none.
pub proof fn hits_are_those_of_the_files(
    a: Seq<FileView>,
    path: Seq<char>,
    content: Seq<char>,
    b: Seq<FileView>,
    needle: Seq<char>,
)
    ensures
        hits_in_files(a + b, needle) == hits_in_files(a, needle) + hits_in_files(b, needle),
        hits_in_files(seq![FileView { path, content: Some(content) }], needle) == hits_in_lines(
            path,
            text::lines(content),
            0,
            needle,
        ),
        hits_in_files(seq![FileView { path, content: None }], needle) == Seq::<Seq<char>>::empty(),
    decreases a.len(),
{
    let none = Seq::<FileView>::empty();
    let file = FileView { path, content: Some(content) };
    let unreadable = FileView { path, content: None };
    assert(seq![file].drop_first() =~= none);
    assert(seq![unreadable].drop_first() =~= none);
    assert(hits_in_files(none, needle) =~= seq![]);
    assert(hits_in_files(seq![file], needle) =~= hits_in_lines(
        path,
        text::lines(content),
        0,
        needle,
    ));
    if a.len() == 0 {
        assert(a + b =~= b);
        assert(hits_in_files(a, needle) + hits_in_files(b, needle) =~= hits_in_files(b, needle));
    } else {
        hits_are_those_of_the_files(a.drop_first(), path, content, b, needle);
        assert((a + b).drop_first() =~= a.drop_first() + b);
        assert((a + b)[0] == a[0]);
        assert(hits_in_files(a + b, needle) =~= hits_in_files(a, needle) + hits_in_files(
            b,
            needle,
        ));
    }
}

/// A search disregards case: patterns of the same lower case find the same. What it finds is what
/// it answers; where it finds nothing, it says so of the whole pattern.
pub proof fn searches_disregard_case(
    pattern: Seq<char>,
    other: Seq<char>,
    files: Seq<FileView>,
)
    requires
        pattern.len() > 0,
        other.len() > 0,
        text::lowercase(pattern) == text::lowercase(other),
    ensures
        ({
            let hits = hits_in_files(files, text::lowercase(pattern));
            &&& 0 < hits.len() < 60 ==> search_result(pattern, files) == hits.flatten()
                && search_result(other, files) == search_result(pattern, files)
            &&& hits.len() == 0 ==> search_result(pattern, files) == "'"@ + pattern
                + "' 검색 결과 없음"@
        }),
{
    let needle = text::lowercase(pattern);
    let hits = hits_in_files(files, needle);
    searches_report_the_first_hits(files, needle);
    if 0 < hits.len() < 60 {
        lemma_empty_report(files, needle);
        lemma_hits_are_not_empty(files, needle);
        hits.lemma_flatten_length_ge_single_element_length(0);
        hits.lemma_flatten_and_flatten_alt_are_equivalent();
    }
}

proof fn lemma_hits_are_not_empty(files: Seq<FileView>, needle: Seq<char>)
    ensures
        forall|i: int|
            0 <= i < hits_in_files(files, needle).len() ==> (#[trigger] hits_in_files(
                files,
                needle,
            )[i]).len() > 0,
    decreases files.len(),
{
    if files.len() > 0 {
        lemma_hits_are_not_empty(files.drop_first(), needle);
        let here = hits_in_file(files[0], needle);
        let rest = hits_in_files(files.drop_first(), needle);
        let all = hits_in_files(files, needle);
        if let Some(content) = files[0].content {
            lemma_line_hits_are_not_empty(files[0].path, text::lines(content), 0, needle);
        }
        assert forall|i: int| 0 <= i < all.len() implies (#[trigger] all[i]).len() > 0 by {
            if i < here.len() {
                assert(all[i] == here[i]);
            } else {
                assert(all[i] == rest[i - here.len()]);
            }
        }
    }
}

proof fn lemma_line_hits_are_not_empty(
    path: Seq<char>,
    lines: Seq<Seq<char>>,
    before: nat,
    needle: Seq<char>,
)
    ensures
        forall|i: int|
            0 <= i < hits_in_lines(path, lines, before, needle).len() ==> (
            #[trigger] hits_in_lines(path, lines, before, needle)[i]).len() > 0,
    decreases lines.len(),
{
    if lines.len() > 0 {
        lemma_line_hits_are_not_empty(path, lines.drop_first(), before + 1, needle);
        reveal_strlit(":");
        let all = hits_in_lines(path, lines, before, needle);
        let rest = hits_in_lines(path, lines.drop_first(), before + 1, needle);
        if is_hit(lines[0], needle) {
            assert forall|i: int| 0 <= i < all.len() implies (#[trigger] all[i]).len() > 0 by {
                if i > 0 {
                    assert(all[i] == rest[i - 1]);
                }
            }
        }
    }
}

/// The project's file list has a line for each file, in order, up to the limit: reading its lines
/// gives back the paths.
pub proof fn file_lists_are_read_back(files: Seq<Seq<char>>)
    requires
        forall|i: int|
            0 <= i < files.len() ==> text::is_line(#[trigger] files[i]) && files[i].len() > 0,
    ensures
        files.len() <= 400 ==> text::lines(file_list(files)) == order::in_order(files),
        files.len() > 400 ==> text::lines(file_list(files)) == order::in_order(files).take(400),
{
    let sorted = order::in_order(files);
    order::in_order_sorts(files);
    assert forall|i: int| 0 <= i < sorted.len() implies text::is_line(#[trigger] sorted[i])
        && sorted[i].len() > 0 by {
        vstd::seq_lib::to_multiset_contains(sorted, sorted[i]);
        vstd::seq_lib::to_multiset_contains(files, sorted[i]);
        assert(sorted.contains(sorted[i]));
        let k = choose|k: int| 0 <= k < files.len() && files[k] == sorted[i];
        assert(text::is_line(files[k]));
    }
    let shown = walk::at_most_first(sorted, 400);
    assert forall|i: int| 0 <= i < shown.len() implies text::is_line(#[trigger] shown[i]) by {
        assert(shown[i] == sorted[i]);
    }
    if shown.len() > 0 {
        assert(shown.last() == sorted[shown.len() - 1]);
    }
    text::joined_lines_are_read_back(shown);
}

} // verus!
