//! The files of a project folder, found folder by folder.
//!
//! A [`Walker`] decides which folders to look into and which files to list; its caller lists the
//! entries of the folders that it asks for.

use vstd::prelude::*;

use crate::paths;
use crate::paths::Platform;
use crate::text;

verus! {

/// The most files that are listed.
pub const MAX_FILES: usize = 2000;

/// What an entry of a folder is.
#[derive(Debug)]
pub enum EntryKind {
    /// A folder, by the number that the caller knows it by.
    Folder(usize),
    /// A file, by its path relative to the project.
    File(String),
    /// Anything that has no path below the project.
    Other,
}

/// An entry of a folder.
#[derive(Debug)]
pub struct Entry {
    pub name: String,
    pub kind: EntryKind,
}

/// What an [`EntryKind`] says, as texts and numbers.
pub enum KindView {
    Folder(usize),
    File(Seq<char>),
    Other,
}

/// What an [`Entry`] holds, as texts and numbers.
pub struct EntryView {
    pub name: Seq<char>,
    pub kind: KindView,
}

impl View for Entry {
    type V = EntryView;

    open spec fn view(&self) -> EntryView {
        EntryView {
            name: self.name@,
            kind: match self.kind {
                EntryKind::Folder(id) => KindView::Folder(id),
                EntryKind::File(rel) => KindView::File(rel@),
                EntryKind::Other => KindView::Other,
            },
        }
    }
}

/// What the entries of `v` hold.
pub open spec fn entries(v: Seq<Entry>) -> Seq<EntryView> {
    v.map_values(|e: Entry| e@)
}

/// The names of files and folders that are left out, with all that is in them.
pub open spec fn is_skipped(name: Seq<char>) -> bool {
    ||| name == "node_modules"@
    ||| name == "target"@
    ||| name == ".git"@
    ||| name == "dist"@
    ||| name == "build"@
    ||| name == ".venv"@
}

/// How a path is listed: with slashes between its names.
pub open spec fn listed_path(rel: Seq<char>) -> Seq<char> {
    text::replace(rel, '\\', '/')
}

/// The state of a walk: the entries still to look at, and the files listed so far.
pub struct Walk {
    pub pending: Seq<EntryView>,
    pub found: Seq<Seq<char>>,
}

/// Where a walk stands when it needs the entries of the next folder, and which folder that is. No
/// folder is needed at the end: when nothing is left to look at, or enough is listed.
pub open spec fn advance(walk: Walk) -> (Walk, Option<usize>)
    decreases walk.pending.len(),
{
    if walk.found.len() >= MAX_FILES || walk.pending.len() == 0 {
        (walk, None)
    } else {
        let first = walk.pending[0];
        let rest = walk.pending.drop_first();
        if is_skipped(first.name) {
            advance(Walk { pending: rest, found: walk.found })
        } else {
            match first.kind {
                KindView::Folder(id) => (Walk { pending: rest, found: walk.found }, Some(id)),
                KindView::File(rel) => advance(
                    Walk { pending: rest, found: walk.found.push(listed_path(rel)) },
                ),
                KindView::Other => advance(Walk { pending: rest, found: walk.found }),
            }
        }
    }
}

/// Whether entries of this name are left out.
pub fn skipped(name: &str) -> (b: bool)
    ensures
        b == is_skipped(name@),
{
    text::same_text(name, "node_modules") || text::same_text(name, "target") || text::same_text(
        name,
        ".git",
    ) || text::same_text(name, "dist") || text::same_text(name, "build") || text::same_text(
        name,
        ".venv",
    )
}

/// A walk through a project folder.
#[derive(Debug)]
pub struct Walker {
    /// The entries still to look at, the next one last.
    stack: Vec<Entry>,
    found: Vec<String>,
}

impl View for Walker {
    type V = Walk;

    closed spec fn view(&self) -> Walk {
        Walk { pending: entries(self.stack@).reverse(), found: text::texts(self.found@) }
    }
}

impl Walker {
    /// A walk that has listed nothing; the entries of the project folder itself come next.
    pub fn new() -> (w: Walker)
        ensures
            w@.pending == Seq::<EntryView>::empty(),
            w@.found == Seq::<Seq<char>>::empty(),
    {
        let w = Walker { stack: Vec::new(), found: Vec::new() };
        assert(w@.pending =~= seq![]);
        assert(w@.found =~= seq![]);
        w
    }

    /// Takes the entries of a folder, to be looked at before all others.
    pub fn listed(&mut self, folder: Vec<Entry>)
        ensures
            final(self)@.pending == entries(folder@) + old(self)@.pending,
            final(self)@.found == old(self)@.found,
    {
        let mut folder = folder;
        let ghost all = entries(folder@);
        let ghost before = self@.pending;
        let ghost found = self@.found;
        assert(all.skip(all.len() as int) + before =~= before);
        while folder.len() > 0
            invariant
                folder@.len() <= all.len(),
                entries(folder@) == all.take(folder@.len() as int),
                self@.pending == all.skip(folder@.len() as int) + before,
                self@.found == found,
            decreases folder@.len(),
        {
            let ghost n = folder@.len() as int;
            let ghost stack = self.stack@;
            let ghost left = entries(folder@);
            if let Some(e) = folder.pop() {
                assert(left[n - 1] == e@);
                assert(all[n - 1] == e@);
                self.stack.push(e);
                assert(entries(self.stack@) =~= entries(stack).push(e@));
                assert(self@.pending =~= seq![e@] + entries(stack).reverse());
                assert(all.skip(n - 1) =~= seq![e@] + all.skip(n));
                assert(self@.pending =~= all.skip(n - 1) + before);
                assert(entries(folder@) =~= all.take(n - 1));
            }
        }
        assert(all.skip(0) =~= all);
    }

    /// Goes on to the next folder whose entries are needed, and returns its number; `None` at the
    /// end of the walk.
    pub fn next_folder(&mut self) -> (r: Option<usize>)
        ensures
            advance(old(self)@) == (final(self)@, r),
    {
        loop
            invariant
                advance(self@) == advance(old(self)@),
            decreases self.stack@.len(),
        {
            assert(self@.found.len() == self.found@.len());
            assert(self@.pending.len() == self.stack@.len());
            if self.found.len() >= MAX_FILES {
                return None;
            }
            let ghost now = self@;
            let ghost stack = self.stack@;
            match self.stack.pop() {
                None => {
                    assert(self@.pending =~= now.pending);
                    return None;
                },
                Some(e) => {
                    proof {
                        assert(entries(stack).last() == e@);
                        assert(now.pending[0] == e@);
                        assert(entries(self.stack@) =~= entries(stack).drop_last());
                        assert(now.pending.drop_first() =~= self@.pending);
                    }
                    if !skipped(e.name.as_str()) {
                        match e.kind {
                            EntryKind::Folder(id) => {
                                return Some(id);
                            },
                            EntryKind::File(rel) => {
                                let ghost found = self.found@;
                                let path: String = text::replaced(rel.as_str(), '\\', '/');
                                self.found.push(path);
                                assert(text::texts(self.found@) =~= text::texts(found).push(path@));
                            },
                            EntryKind::Other => {},
                        }
                    }
                },
            }
        }
    }

    /// The files that were listed.
    pub fn finish(self) -> (files: Vec<String>)
        ensures
            text::texts(files@) == self@.found,
    {
        self.found
    }
}

/// What a folder holds, at every depth.
pub enum Tree {
    Folder { name: Seq<char>, content: Seq<Tree> },
    File { name: Seq<char>, rel: Seq<char> },
    Other { name: Seq<char> },
}

impl Tree {
    /// The name of the entry that stands for the tree.
    pub open spec fn name(self) -> Seq<char> {
        match self {
            Tree::Folder { name, content } => name,
            Tree::File { name, rel } => name,
            Tree::Other { name } => name,
        }
    }
}

/// The paths of all files of `forest`, but for those that are left out: the content of a folder
/// stands where the folder does.
pub open spec fn all_files(forest: Seq<Tree>) -> Seq<Seq<char>>
    decreases forest,
{
    if forest.len() == 0 {
        seq![]
    } else {
        let rest = all_files(forest.drop_first());
        if is_skipped(forest[0].name()) {
            rest
        } else {
            match forest[0] {
                Tree::Folder { name, content } => all_files(content) + rest,
                Tree::File { name, rel } => seq![listed_path(rel)] + rest,
                Tree::Other { name } => rest,
            }
        }
    }
}

/// `entry` is how a folder lists `tree`.
pub open spec fn lists(entry: EntryView, tree: Tree) -> bool {
    &&& entry.name == tree.name()
    &&& match entry.kind {
        KindView::Folder(id) => tree is Folder,
        KindView::File(rel) => tree is File && tree->rel == rel,
        KindView::Other => tree is Other,
    }
}

/// `pending` is how a folder lists `forest`.
pub open spec fn lists_all(pending: Seq<EntryView>, forest: Seq<Tree>) -> bool {
    &&& pending.len() == forest.len()
    &&& forall|i: int| 0 <= i < pending.len() ==> lists(#[trigger] pending[i], forest[i])
}

/// The first `n` of `s`, or all where there are no more.
pub open spec fn at_most_first(s: Seq<Seq<char>>, n: nat) -> Seq<Seq<char>> {
    if s.len() <= n {
        s
    } else {
        s.take(n as int)
    }
}

/// What a walk lists in the end, if `forest` is what is left of the project.
pub open spec fn outcome(found: Seq<Seq<char>>, forest: Seq<Tree>) -> Seq<Seq<char>> {
    at_most_first(found + all_files(forest), MAX_FILES as nat)
}

proof fn lemma_all_files_concat(a: Seq<Tree>, b: Seq<Tree>)
    ensures
        all_files(a + b) == all_files(a) + all_files(b),
    decreases a.len(),
{
    if a.len() == 0 {
        assert(a + b =~= b);
        assert(all_files(a) + all_files(b) =~= all_files(b));
    } else {
        lemma_all_files_concat(a.drop_first(), b);
        assert((a + b).drop_first() =~= a.drop_first() + b);
        assert((a + b)[0] == a[0]);
        assert(all_files(a + b) =~= all_files(a) + all_files(b));
    }
}

/// A walk lists the files of the project in the order in which the folders list them, and stops
/// at the limit. For while it goes on, what it will have listed in the end stays the same: where
/// it ends, that is what it has listed, and where it needs a folder, the content of that folder
/// comes before what is pending.
pub proof fn walk_lists_the_project(walk: Walk, forest: Seq<Tree>)
    requires
        walk.found.len() <= MAX_FILES,
        lists_all(walk.pending, forest),
    ensures
        ({
            let (end, folder) = advance(walk);
            let k = walk.pending.len() - end.pending.len() - 1;
            match folder {
                None => end.found == outcome(walk.found, forest),
                Some(id) => {
                    &&& 0 <= k < forest.len()
                    &&& walk.pending[k].kind == KindView::Folder(id)
                    &&& forest[k] is Folder
                    &&& lists_all(end.pending, forest.skip(k + 1))
                    &&& outcome(end.found, forest[k]->content + forest.skip(k + 1)) == outcome(
                        walk.found,
                        forest,
                    )
                },
            }
        }),
        advance(walk).0.found.len() <= MAX_FILES,
    decreases walk.pending.len(),
{
    if walk.found.len() >= MAX_FILES {
        let all = walk.found + all_files(forest);
        assert(all.take(MAX_FILES as int) =~= walk.found);
        if all.len() <= MAX_FILES {
            assert(all =~= walk.found);
        }
    } else if walk.pending.len() == 0 {
        assert(walk.found + all_files(forest) =~= walk.found);
    } else {
        let rest = walk.pending.drop_first();
        let trees = forest.drop_first();
        assert(lists(walk.pending[0], forest[0]));
        assert(lists_all(rest, trees)) by {
            assert forall|i: int| 0 <= i < rest.len() implies lists(#[trigger] rest[i], trees[i]) by {
                assert(lists(walk.pending[i + 1], forest[i + 1]));
            }
        }
        let first = walk.pending[0];
        if !is_skipped(first.name) && first.kind is Folder {
            assert(forest.skip(1) =~= trees);
            lemma_all_files_concat(forest[0]->content, trees);
        } else {
            let found = if !is_skipped(first.name) && first.kind is File {
                walk.found.push(listed_path(first.kind->File_0))
            } else {
                walk.found
            };
            let next = Walk { pending: rest, found };
            walk_lists_the_project(next, trees);
            assert(advance(walk) == advance(next));
            assert(found + all_files(trees) =~= walk.found + all_files(forest));
            let (end, folder) = advance(walk);
            if let Some(id) = folder {
                let k = rest.len() - end.pending.len() - 1;
                assert(rest[k] == walk.pending[k + 1]);
                assert(trees[k] == forest[k + 1]);
                assert(trees.skip(k + 1) =~= forest.skip(k + 2));
            }
        }
    }
}

/// What separates the names of a path where the caller walks.
pub open spec fn separator(platform: Platform) -> Seq<char> {
    if platform == Platform::Windows {
        "\\"@
    } else {
        "/"@
    }
}

proof fn lemma_listed_path(platform: Platform, path: Seq<Seq<char>>)
    requires
        forall|k: int| 0 <= k < path.len() ==> paths::is_plain(Platform::Windows, #[trigger] path[k]),
    ensures
        listed_path(text::join(path, separator(platform))) == text::join(path, "/"@),
    decreases path.len(),
{
    reveal_strlit("\\");
    reveal_strlit("/");
    let sep = separator(platform);
    let whole = text::join(path, sep);
    if path.len() == 0 {
        assert(listed_path(whole) =~= seq![]);
    } else {
        let last = path.last();
        assert(paths::is_plain(Platform::Windows, path[path.len() - 1]));
        assert(listed_path(last) =~= last) by {
            assert forall|i: int| 0 <= i < last.len() implies listed_path(last)[i] == last[i] by {
                assert(!paths::is_separator(Platform::Windows, last[i]));
            }
        }
        if path.len() > 1 {
            let init = path.drop_last();
            let front = text::join(init, sep);
            assert forall|k: int| 0 <= k < init.len() implies paths::is_plain(
                Platform::Windows,
                #[trigger] init[k],
            ) by {
                assert(init[k] == path[k]);
            }
            lemma_listed_path(platform, init);
            assert(listed_path(sep) =~= "/"@);
            assert(listed_path(front + sep + last) =~= listed_path(front) + listed_path(sep)
                + listed_path(last));
        }
    }
}

/// A path that is listed is accepted, and leads back to the file: names of entries that hold no
/// slash and no backslash are the names that the listed path leads along.
pub proof fn listed_paths_lead_back(platform: Platform, path: Seq<Seq<char>>)
    requires
        path.len() > 0,
        forall|k: int|
            0 <= k < path.len() ==> paths::is_entry_name(platform, #[trigger] path[k])
                && paths::is_plain(Platform::Windows, path[k]),
    ensures
        paths::relative_names(platform, listed_path(text::join(path, separator(platform)))) == Ok::<
            Seq<Seq<char>>,
            Seq<char>,
        >(path),
{
    lemma_listed_path(platform, path);
    paths::joined_names_lead_back(platform, path);
}

/// The number of folders that a walk through `forest` looks into, at every depth.
pub open spec fn folders_in(forest: Seq<Tree>) -> nat
    decreases forest,
{
    if forest.len() == 0 {
        0
    } else {
        let rest = folders_in(forest.drop_first());
        match forest[0] {
            Tree::Folder { name, content } => if is_skipped(name) {
                rest
            } else {
                1 + folders_in(content) + rest
            },
            _ => rest,
        }
    }
}

/// The place in `walk.pending` of the folder whose entries the walk needs next.
pub open spec fn asked_at(walk: Walk) -> int {
    walk.pending.len() - advance(walk).0.pending.len() - 1
}

/// The walk once it was handed `entries` of the folder that it needs.
pub open spec fn handed(walk: Walk, entries: Seq<EntryView>) -> Walk {
    let end = advance(walk).0;
    Walk { pending: entries + end.pending, found: end.found }
}

/// What is left of the project once the walk was handed the entries of the folder that it needs.
pub open spec fn left_behind(walk: Walk, forest: Seq<Tree>) -> Seq<Tree> {
    let k = asked_at(walk);
    forest[k]->content + forest.skip(k + 1)
}

/// Where a walk stands that is driven on, once it was handed `answers`, one for each folder that
/// it needs; and which folder it needs then. What follows its end is left alone.
pub open spec fn after_answers(walk: Walk, answers: Seq<Seq<EntryView>>) -> (Walk, Option<usize>)
    decreases answers.len(),
{
    if advance(walk).1 is None || answers.len() == 0 {
        advance(walk)
    } else {
        after_answers(handed(walk, answers[0]), answers.drop_first())
    }
}

/// Each folder that the walk needs is answered with its content, where `forest` is what is left of
/// the project.
pub open spec fn answers_hold(
    walk: Walk,
    forest: Seq<Tree>,
    answers: Seq<Seq<EntryView>>,
) -> bool
    decreases answers.len(),
{
    advance(walk).1 is Some && answers.len() > 0 ==> {
        &&& lists_all(answers[0], forest[asked_at(walk)]->content)
        &&& answers_hold(
            handed(walk, answers[0]),
            left_behind(walk, forest),
            answers.drop_first(),
        )
    }
}

proof fn lemma_folders_concat(a: Seq<Tree>, b: Seq<Tree>)
    ensures
        folders_in(a + b) == folders_in(a) + folders_in(b),
    decreases a.len(),
{
    if a.len() == 0 {
        assert(a + b =~= b);
    } else {
        lemma_folders_concat(a.drop_first(), b);
        assert((a + b).drop_first() =~= a.drop_first() + b);
        assert((a + b)[0] == a[0]);
    }
}

/// A folder that a walk needs is one that is left, and once it was handed over, fewer are left.
proof fn lemma_asked_folder_is_left(walk: Walk, forest: Seq<Tree>)
    requires
        walk.found.len() <= MAX_FILES,
        lists_all(walk.pending, forest),
        advance(walk).1 is Some,
    ensures
        0 <= asked_at(walk) < forest.len(),
        folders_in(left_behind(walk, forest)) < folders_in(forest),
    decreases walk.pending.len(),
{
    let first = walk.pending[0];
    let rest = walk.pending.drop_first();
    let trees = forest.drop_first();
    assert(lists(first, forest[0]));
    if !is_skipped(first.name) && first.kind is Folder {
        assert(asked_at(walk) == 0);
        assert(forest.skip(1) =~= trees);
        lemma_folders_concat(forest[0]->content, trees);
    } else {
        let found = if !is_skipped(first.name) && first.kind is File {
            walk.found.push(listed_path(first.kind->File_0))
        } else {
            walk.found
        };
        let next = Walk { pending: rest, found };
        assert(lists_all(rest, trees)) by {
            assert forall|i: int| 0 <= i < rest.len() implies lists(#[trigger] rest[i], trees[i]) by {
                assert(lists(walk.pending[i + 1], forest[i + 1]));
            }
        }
        assert(advance(walk) == advance(next));
        lemma_asked_folder_is_left(next, trees);
        let k = asked_at(next);
        assert(asked_at(walk) == k + 1);
        assert(trees[k] == forest[k + 1]);
        assert(trees.skip(k + 1) =~= forest.skip(k + 2));
        assert(left_behind(walk, forest) == left_behind(next, trees));
    }
}

proof fn lemma_driven_walk(walk: Walk, forest: Seq<Tree>, answers: Seq<Seq<EntryView>>)
    requires
        walk.found.len() <= MAX_FILES,
        lists_all(walk.pending, forest),
        answers_hold(walk, forest, answers),
    ensures
        after_answers(walk, answers).1 is None ==> after_answers(walk, answers).0.found == outcome(
            walk.found,
            forest,
        ),
        answers.len() >= folders_in(forest) ==> after_answers(walk, answers).1 is None,
    decreases answers.len(),
{
    walk_lists_the_project(walk, forest);
    if advance(walk).1 is Some {
        lemma_asked_folder_is_left(walk, forest);
        if answers.len() > 0 {
            let k = asked_at(walk);
            let end = advance(walk).0;
            let next = handed(walk, answers[0]);
            let left = left_behind(walk, forest);
            let content = forest[k]->content;
            assert(lists_all(next.pending, left)) by {
                assert forall|i: int| 0 <= i < next.pending.len() implies lists(
                    #[trigger] next.pending[i],
                    left[i],
                ) by {
                    if i < content.len() {
                        assert(lists(answers[0][i], content[i]));
                    } else {
                        assert(lists(
                            end.pending[i - content.len()],
                            forest.skip(k + 1)[i - content.len()],
                        ));
                    }
                }
            }
            lemma_driven_walk(next, left, answers.drop_first());
        }
    }
}

/// A whole walk lists the project: begun with the entries of the project folder, and handed the
/// content of each folder that it needs, it ends once it was handed as many folders as the project
/// holds, and sooner where it has listed enough. At its end it has listed the files of the project
/// at every depth, in the order in which the folders list them, up to the limit.
pub proof fn whole_walks_list_the_project(
    pending: Seq<EntryView>,
    forest: Seq<Tree>,
    answers: Seq<Seq<EntryView>>,
)
    requires
        lists_all(pending, forest),
        answers_hold((Walk { pending, found: seq![] }), forest, answers),
    ensures
        ({
            let (end, folder) = after_answers(Walk { pending, found: seq![] }, answers);
            &&& folder is None ==> end.found == at_most_first(all_files(forest), MAX_FILES as nat)
            &&& answers.len() >= folders_in(forest) ==> folder is None
        }),
{
    let walk = Walk { pending, found: seq![] };
    lemma_driven_walk(walk, forest, answers);
    assert(walk.found + all_files(forest) =~= all_files(forest));
}

/// The names that are left out are those of folders for dependencies, build results and version
/// control, and no others.
pub proof fn only_these_names_are_left_out(name: Seq<char>)
    ensures
        is_skipped(name) <==> seq![
            "node_modules"@,
            "target"@,
            ".git"@,
            "dist"@,
            "build"@,
            ".venv"@,
        ].contains(name),
{
    let all = seq!["node_modules"@, "target"@, ".git"@, "dist"@, "build"@, ".venv"@];
    assert(all[0] == "node_modules"@ && all[1] == "target"@ && all[2] == ".git"@);
    assert(all[3] == "dist"@ && all[4] == "build"@ && all[5] == ".venv"@);
}

/// The files of a project are those of its entries, in order: of a file its path, with slashes for
/// backslashes, of a folder the files of its content, and nothing of an entry that is left out.
pub proof fn all_files_are_those_of_the_entries(
    a: Seq<Tree>,
    name: Seq<char>,
    rel: Seq<char>,
    content: Seq<Tree>,
    b: Seq<Tree>,
)
    ensures
        all_files(a + b) == all_files(a) + all_files(b),
        !is_skipped(name) ==> all_files(seq![Tree::File { name, rel }]) == seq![listed_path(rel)],
        !is_skipped(name) ==> all_files(seq![Tree::Folder { name, content }]) == all_files(content),
        is_skipped(name) ==> all_files(seq![Tree::File { name, rel }]).len() == 0,
        is_skipped(name) ==> all_files(seq![Tree::Folder { name, content }]).len() == 0,
        listed_path(rel).len() == rel.len(),
        forall|i: int|
            0 <= i < rel.len() ==> #[trigger] listed_path(rel)[i] == (if rel[i] == '\\' {
                '/'
            } else {
                rel[i]
            }),
{
    lemma_all_files_concat(a, b);
    let none = Seq::<Tree>::empty();
    assert(all_files(none) =~= seq![]);
    let file = seq![Tree::File { name, rel }];
    let folder = seq![Tree::Folder { name, content }];
    assert(file.drop_first() =~= none);
    assert(folder.drop_first() =~= none);
    assert(file[0].name() == name && folder[0].name() == name);
    assert(all_files(file) =~= (if is_skipped(name) {
        seq![]
    } else {
        seq![listed_path(rel)]
    }));
    assert(all_files(folder) =~= (if is_skipped(name) {
        seq![]
    } else {
        all_files(content)
    }));
}

} // verus!
