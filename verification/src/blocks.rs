//! The actions that a model asks for by fenced blocks in its reply.

use vstd::prelude::*;

use crate::text;

verus! {

/// Actions the model requested via fenced blocks.
#[derive(Debug)]
pub struct Blocks {
    /// `file:PATH` blocks: the path, and the full content to write.
    pub files: Vec<(String, String)>,
    /// `run`, `sh`, `bash`, ... blocks: shell commands to execute.
    pub runs: Vec<String>,
    /// `read:PATH` blocks: files whose full content to return to the model.
    pub reads: Vec<String>,
    /// `search:TEXT` blocks: project searches to run and return matches for.
    pub searches: Vec<String>,
    /// `delete:PATH` blocks: files or folders to remove.
    pub deletes: Vec<String>,
}

/// What a [`Blocks`] holds, as texts.
#[verifier::ext_equal]
pub struct BlocksView {
    pub files: Seq<(Seq<char>, Seq<char>)>,
    pub runs: Seq<Seq<char>>,
    pub reads: Seq<Seq<char>>,
    pub searches: Seq<Seq<char>>,
    pub deletes: Seq<Seq<char>>,
}

impl View for Blocks {
    type V = BlocksView;

    open spec fn view(&self) -> BlocksView {
        BlocksView {
            files: text::text_pairs(self.files@),
            runs: text::texts(self.runs@),
            reads: text::texts(self.reads@),
            searches: text::texts(self.searches@),
            deletes: text::texts(self.deletes@),
        }
    }
}

impl BlocksView {
    /// No action at all.
    pub open spec fn none() -> BlocksView {
        BlocksView {
            files: seq![],
            runs: seq![],
            reads: seq![],
            searches: seq![],
            deletes: seq![],
        }
    }

    /// The actions of `self`, and after them those of `other`.
    pub open spec fn plus(self, other: BlocksView) -> BlocksView {
        BlocksView {
            files: self.files + other.files,
            runs: self.runs + other.runs,
            reads: self.reads + other.reads,
            searches: self.searches + other.searches,
            deletes: self.deletes + other.deletes,
        }
    }
}

impl Default for Blocks {
    fn default() -> (b: Blocks)
        ensures
            b@ == BlocksView::none(),
    {
        let b = Blocks {
            files: Vec::new(),
            runs: Vec::new(),
            reads: Vec::new(),
            searches: Vec::new(),
            deletes: Vec::new(),
        };
        assert(b@ =~= BlocksView::none());
        b
    }
}

impl Blocks {
    /// Whether no action was requested.
    pub fn is_empty(&self) -> (b: bool)
        ensures
            b == (self@ == BlocksView::none()),
    {
        let b: bool = self.files.len() == 0 && self.runs.len() == 0 && self.reads.len() == 0
            && self.searches.len() == 0 && self.deletes.len() == 0;
        proof {
            if b {
                assert(self@ =~= BlocksView::none());
            } else {
                assert(self@.files.len() == self.files.len());
                assert(self@.runs.len() == self.runs.len());
                assert(self@.reads.len() == self.reads.len());
                assert(self@.searches.len() == self.searches.len());
                assert(self@.deletes.len() == self.deletes.len());
            }
        }
        b
    }
}

/// A fenced block of a reply: what its opening fence says, and the lines between its fences.
pub struct RawBlock {
    pub info: Seq<char>,
    pub body: Seq<char>,
}

/// `line` opens or closes a block: behind white space it begins with three backquotes.
pub open spec fn is_fence(line: Seq<char>) -> bool {
    text::has_prefix(text::trim_start(line), "```"@)
}

/// What the fence `line` says behind its backquotes.
pub open spec fn fence_info(line: Seq<char>) -> Seq<char> {
    text::trim(text::trim_start(line).skip("```"@.len() as int))
}

/// The number of lines before the first fence of `lines`.
pub open spec fn lines_before_fence(lines: Seq<Seq<char>>) -> int
    decreases lines.len(),
{
    if lines.len() == 0 || is_fence(lines[0]) {
        0
    } else {
        1 + lines_before_fence(lines.drop_first())
    }
}

/// There is no more before the first fence than there are lines.
pub proof fn lemma_lines_before_fence(lines: Seq<Seq<char>>)
    ensures
        0 <= lines_before_fence(lines) <= lines.len(),
        forall|i: int| 0 <= i < lines_before_fence(lines) ==> !is_fence(#[trigger] lines[i]),
        lines_before_fence(lines) < lines.len() ==> is_fence(lines[lines_before_fence(lines)]),
    decreases lines.len(),
{
    if lines.len() > 0 && !is_fence(lines[0]) {
        let rest = lines.drop_first();
        lemma_lines_before_fence(rest);
        assert forall|i: int| 0 <= i < lines_before_fence(lines) implies !is_fence(
            #[trigger] lines[i],
        ) by {
            if i > 0 {
                assert(rest[i - 1] == lines[i]);
            }
        }
        if lines_before_fence(lines) < lines.len() {
            assert(rest[lines_before_fence(rest)] == lines[lines_before_fence(lines)]);
        }
    }
}

/// `lines_before_fence` is the only number with its properties.
pub proof fn lemma_lines_before_fence_are(lines: Seq<Seq<char>>, n: int)
    requires
        0 <= n <= lines.len(),
        forall|i: int| 0 <= i < n ==> !is_fence(#[trigger] lines[i]),
        n < lines.len() ==> is_fence(lines[n]),
    ensures
        lines_before_fence(lines) == n,
{
    lemma_lines_before_fence(lines);
    let m = lines_before_fence(lines);
    if m < n {
        assert(!is_fence(lines[m]));
    } else if n < m {
        assert(!is_fence(lines[n]));
    }
}

/// What is left of `lines` behind the first `n` and one more.
pub open spec fn lines_behind(lines: Seq<Seq<char>>, n: int) -> Seq<Seq<char>> {
    if n < lines.len() {
        lines.skip(n + 1)
    } else {
        seq![]
    }
}

/// The fenced blocks of `lines`, in order. A block without a closing fence reaches to the end.
pub open spec fn fenced(lines: Seq<Seq<char>>) -> Seq<RawBlock>
    decreases lines.len(),
    via fenced_decreases
{
    if lines.len() == 0 {
        seq![]
    } else if !is_fence(lines[0]) {
        fenced(lines.drop_first())
    } else {
        let rest = lines.drop_first();
        let n = lines_before_fence(rest);
        let block = RawBlock {
            info: fence_info(lines[0]),
            body: text::join(rest.take(n), "\n"@),
        };
        seq![block] + fenced(lines_behind(rest, n))
    }
}

#[via_fn]
proof fn fenced_decreases(lines: Seq<Seq<char>>) {
    if lines.len() > 0 {
        lemma_lines_before_fence(lines.drop_first());
    }
}

/// What follows the first of `a` and `b` with which `info` begins.
pub open spec fn after_either(info: Seq<char>, a: Seq<char>, b: Seq<char>) -> Option<Seq<char>> {
    match text::after_prefix(info, a) {
        Some(rest) => Some(rest),
        None => text::after_prefix(info, b),
    }
}

/// The path of a block that writes a file.
pub open spec fn file_target(info: Seq<char>) -> Option<Seq<char>> {
    after_either(info, "file:"@, "File:"@)
}

/// The path of a block that reads a file.
pub open spec fn read_target(info: Seq<char>) -> Option<Seq<char>> {
    after_either(info, "read:"@, "Read:"@)
}

/// The text of a block that searches.
pub open spec fn search_target(info: Seq<char>) -> Option<Seq<char>> {
    match after_either(info, "search:"@, "Search:"@) {
        Some(rest) => Some(rest),
        None => text::after_prefix(info, "grep:"@),
    }
}

/// The path of a block that deletes.
pub open spec fn delete_target(info: Seq<char>) -> Option<Seq<char>> {
    match after_either(info, "delete:"@, "Delete:"@) {
        Some(rest) => Some(rest),
        None => after_either(info, "remove:"@, "rm:"@),
    }
}

/// The words, in lower case, that mark a block of shell commands.
pub open spec fn is_run_word(lower: Seq<char>) -> bool {
    ||| lower == "run"@
    ||| lower == "sh"@
    ||| lower == "bash"@
    ||| lower == "cmd"@
    ||| lower == "shell"@
    ||| lower == "console"@
    ||| lower == "powershell"@
    ||| lower == "ps"@
    ||| lower == "bat"@
}

/// The commands of a block: its lines without the white space around them, but for blank ones.
pub open spec fn commands(body: Seq<char>) -> Seq<Seq<char>> {
    text::lines(body).map_values(|line: Seq<char>| text::trim(line)).filter(
        |command: Seq<char>| command.len() > 0,
    )
}

/// The actions that one block asks for. `lower` is the lower case of `info`.
pub open spec fn block_actions(info: Seq<char>, lower: Seq<char>, body: Seq<char>) -> BlocksView {
    let none = BlocksView::none();
    if let Some(path) = file_target(info) {
        BlocksView { files: seq![(text::trim(path), body)], ..none }
    } else if let Some(path) = read_target(info) {
        BlocksView { reads: seq![text::trim(path)], ..none }
    } else if let Some(query) = search_target(info) {
        BlocksView { searches: seq![text::trim(query)], ..none }
    } else if let Some(path) = delete_target(info) {
        BlocksView { deletes: seq![text::trim(path)], ..none }
    } else if is_run_word(lower) {
        BlocksView { runs: commands(body), ..none }
    } else {
        none
    }
}

/// The actions of `blocks`, in order.
pub open spec fn all_actions(blocks: Seq<RawBlock>) -> BlocksView
    decreases blocks.len(),
{
    if blocks.len() == 0 {
        BlocksView::none()
    } else {
        let first = blocks[0];
        block_actions(first.info, text::lowercase(first.info), first.body).plus(
            all_actions(blocks.drop_first()),
        )
    }
}

/// The actions that a reply asks for.
pub open spec fn requested(reply: Seq<char>) -> BlocksView {
    all_actions(fenced(text::lines(reply)))
}

/// The lower case of an opening fence of `reply` is the ASCII one, where the fence is ASCII.
pub open spec fn lowers_ascii(reply: Seq<char>) -> bool {
    forall|k: int|
        0 <= k < fenced(text::lines(reply)).len() && vstd::utf8::is_ascii_chars(
            (#[trigger] fenced(text::lines(reply))[k]).info,
        ) ==> text::lowercase(fenced(text::lines(reply))[k].info) == text::ascii_lowercase(
            fenced(text::lines(reply))[k].info,
        )
}

/// What `line` says behind its backquotes, if it is a fence.
fn fence(line: &str) -> (r: Option<String>)
    ensures
        match r {
            Some(info) => is_fence(line@) && info@ == fence_info(line@),
            None => !is_fence(line@),
        },
{
    match text::strip_prefix(text::trimmed_start(line).as_str(), "```") {
        Some(rest) => Some(text::trimmed(rest.as_str())),
        None => None,
    }
}

/// What follows the first of `a` and `b` with which `info` begins.
fn strip_either(info: &str, a: &str, b: &str) -> (r: Option<String>)
    ensures
        match r {
            Some(rest) => after_either(info@, a@, b@) == Some(rest@),
            None => after_either(info@, a@, b@) is None,
        },
{
    match text::strip_prefix(info, a) {
        Some(rest) => Some(rest),
        None => text::strip_prefix(info, b),
    }
}

/// Whether `lower` marks a block of shell commands.
pub fn run_word(lower: &str) -> (b: bool)
    ensures
        b == is_run_word(lower@),
{
    text::same_text(lower, "run") || text::same_text(lower, "sh") || text::same_text(lower, "bash")
        || text::same_text(lower, "cmd") || text::same_text(lower, "shell") || text::same_text(
        lower,
        "console",
    ) || text::same_text(lower, "powershell") || text::same_text(lower, "ps") || text::same_text(
        lower,
        "bat",
    )
}

/// The commands of the block `body`.
pub fn commands_of(body: &str) -> (r: Vec<String>)
    ensures
        text::texts(r@) == commands(body@),
{
    let lines: Vec<String> = text::lines_of(body);
    let mut r: Vec<String> = Vec::new();
    let ghost all = text::lines(body@).map_values(|line: Seq<char>| text::trim(line));
    let ghost keep = |command: Seq<char>| command.len() > 0;
    let mut i: usize = 0;
    assert(all.take(0).filter(keep) =~= seq![]) by {
        reveal(Seq::filter);
    }
    assert(text::texts(r@) =~= seq![]);
    while i < lines.len()
        invariant
            text::texts(lines@) == text::lines(body@),
            all == text::lines(body@).map_values(|line: Seq<char>| text::trim(line)),
            keep == (|command: Seq<char>| command.len() > 0),
            i <= lines@.len(),
            text::texts(r@) == all.take(i as int).filter(keep),
        decreases lines@.len() - i,
    {
        let command: String = text::trimmed(lines[i].as_str());
        proof {
            assert(text::texts(lines@)[i as int] == lines@[i as int]@);
            assert(all[i as int] == command@);
            assert(all.take(i + 1).drop_last() =~= all.take(i as int));
            reveal(Seq::filter);
        }
        let ghost before = r@;
        if !command.as_str().is_empty() {
            r.push(command);
            assert(text::texts(r@) =~= text::texts(before).push(command@));
        }
        i = i + 1;
    }
    assert(lines@.len() == text::texts(lines@).len());
    assert(all.take(i as int) =~= all);
    r
}

impl Blocks {
    /// Adds the actions that one block asks for, where `lower` is the lower case of `info`.
    pub fn add_block(&mut self, info: &str, lower: &str, body: String)
        ensures
            final(self)@ == old(self)@.plus(block_actions(info@, lower@, body@)),
    {
        let ghost before = *self;
        if let Some(path) = strip_either(info, "file:", "File:") {
            let path: String = text::trimmed(path.as_str());
            self.files.push((path, body));
            assert(text::text_pairs(self.files@) =~= text::text_pairs(before.files@).push((path@, body@)));
        } else if let Some(path) = strip_either(info, "read:", "Read:") {
            let path: String = text::trimmed(path.as_str());
            self.reads.push(path);
            assert(text::texts(self.reads@) =~= text::texts(before.reads@).push(path@));
        } else {
            let query: Option<String> = match strip_either(info, "search:", "Search:") {
                Some(rest) => Some(rest),
                None => text::strip_prefix(info, "grep:"),
            };
            if let Some(query) = query {
                let query: String = text::trimmed(query.as_str());
                self.searches.push(query);
                assert(text::texts(self.searches@) =~= text::texts(before.searches@).push(query@));
            } else {
                let target: Option<String> = match strip_either(info, "delete:", "Delete:") {
                    Some(rest) => Some(rest),
                    None => strip_either(info, "remove:", "rm:"),
                };
                if let Some(path) = target {
                    let path: String = text::trimmed(path.as_str());
                    self.deletes.push(path);
                    assert(text::texts(self.deletes@) =~= text::texts(before.deletes@).push(path@));
                } else if run_word(lower) {
                    let mut found: Vec<String> = commands_of(body.as_str());
                    let ghost added = found@;
                    self.runs.append(&mut found);
                    assert(text::texts(self.runs@) =~= text::texts(before.runs@) + text::texts(
                        added,
                    ));
                }
            }
        }
        assert(self@ =~= before@.plus(block_actions(info@, lower@, body@)));
    }
}

/// Parses the model's reply into the actions it asks for.
pub fn parse_blocks(reply: &str) -> (b: Blocks)
    ensures
        b@ == requested(reply@),
        lowers_ascii(reply@),
{
    let lines: Vec<String> = text::lines_of(reply);
    let ghost all = text::lines(reply@);
    let ghost blocks = fenced(all);
    let ghost mut done: int = 0;
    let mut b: Blocks = Blocks::default();
    let mut i: usize = 0;
    let n: usize = lines.len();
    assert(all.len() == n) by {
        assert(text::texts(lines@).len() == n);
    }
    assert(all.skip(0) =~= all);
    assert(blocks.skip(0) =~= blocks);
    assert(b@.plus(requested(reply@)) =~= requested(reply@));
    while i < n
        invariant
            i <= n == lines@.len(),
            all == text::texts(lines@),
            all == text::lines(reply@),
            b@.plus(all_actions(fenced(all.skip(i as int)))) == requested(reply@),
            blocks == fenced(all),
            0 <= done <= blocks.len(),
            fenced(all.skip(i as int)) == blocks.skip(done),
            forall|k: int|
                0 <= k < done && vstd::utf8::is_ascii_chars((#[trigger] blocks[k]).info)
                    ==> text::lowercase(blocks[k].info) == text::ascii_lowercase(blocks[k].info),
        decreases n - i,
    {
        assert(all[i as int] == lines@[i as int]@);
        let ghost here = all.skip(i as int);
        assert(here.drop_first() =~= all.skip(i + 1));
        match fence(lines[i].as_str()) {
            None => {
                i = i + 1;
            },
            Some(info) => {
                let start: usize = i + 1;
                let mut end: usize = start;
                let ghost rest = all.skip(start as int);
                let mut open: bool = true;
                while open && end < n
                    invariant
                        start <= end <= n == lines@.len(),
                        all == text::texts(lines@),
                        rest == all.skip(start as int),
                        forall|k: int| 0 <= k < end - start ==> !is_fence(#[trigger] rest[k]),
                        !open ==> end < n && is_fence(rest[end - start]),
                    decreases n - end + (if open { 1int } else { 0int }),
                {
                    assert(rest[end - start] == lines@[end as int]@);
                    if fence(lines[end].as_str()).is_some() {
                        open = false;
                    } else {
                        end = end + 1;
                    }
                }
                let body: String = text::joined(&lines, start, end, "\n");
                let lower: String = text::lowercased(info.as_str());
                proof {
                    lemma_lines_before_fence_are(rest, end - start);
                    assert(rest.take(end - start) =~= all.subrange(start as int, end as int));
                }
                let ghost before = b@;
                let ghost raw = RawBlock { info: info@, body: body@ };
                let ghost behind = lines_behind(rest, end - start);
                b.add_block(info.as_str(), lower.as_str(), body);
                i = if end < n {
                    end + 1
                } else {
                    n
                };
                proof {
                    assert(behind =~= all.skip(i as int));
                    assert(fenced(here) == seq![raw] + fenced(behind));
                    assert(fenced(here).drop_first() =~= fenced(behind));
                    assert(blocks.skip(done)[0] == raw);
                    assert(blocks[done] == raw);
                    assert(blocks.skip(done).drop_first() =~= blocks.skip(done + 1));
                    done = done + 1;
                    assert(b@.plus(all_actions(fenced(behind))) =~= before.plus(
                        all_actions(fenced(here)),
                    ));
                }
            },
        }
    }
    assert(all.skip(i as int) =~= seq![]);
    assert(done == blocks.len());
    assert(b@.plus(BlocksView::none()) =~= b@);
    b
}

/// A block as a reply holds it: its opening fence, its lines, and its closing fence.
pub open spec fn rendered(info: Seq<char>, lines: Seq<Seq<char>>) -> Seq<char> {
    "```"@ + info + "\n"@ + text::terminated(lines) + "```\n"@
}

/// `info` can stand behind an opening fence: it holds no line feed, and no white space around it.
pub open spec fn is_info(info: Seq<char>) -> bool {
    &&& forall|i: int| 0 <= i < info.len() ==> #[trigger] info[i] != '\n'
    &&& text::trim(info) == info
}

/// A reply without a fence asks for nothing: text alone does nothing.
pub proof fn text_alone_asks_for_nothing(reply: Seq<char>)
    requires
        forall|i: int|
            0 <= i < text::lines(reply).len() ==> !is_fence(#[trigger] text::lines(reply)[i]),
    ensures
        requested(reply) == BlocksView::none(),
{
    lemma_no_fence_no_block(text::lines(reply));
}

proof fn lemma_no_fence_no_block(lines: Seq<Seq<char>>)
    requires
        forall|i: int| 0 <= i < lines.len() ==> !is_fence(#[trigger] lines[i]),
    ensures
        fenced(lines) == Seq::<RawBlock>::empty(),
    decreases lines.len(),
{
    if lines.len() > 0 {
        let rest = lines.drop_first();
        assert forall|i: int| 0 <= i < rest.len() implies !is_fence(#[trigger] rest[i]) by {
            assert(rest[i] == lines[i + 1]);
        }
        lemma_no_fence_no_block(rest);
    }
}

/// A block of a reply gives the actions that it asks for, and after them come those of what
/// follows it.
pub proof fn blocks_are_read_back(info: Seq<char>, lines: Seq<Seq<char>>, rest: Seq<char>)
    requires
        is_info(info),
        forall|i: int|
            0 <= i < lines.len() ==> text::is_line(#[trigger] lines[i]) && !is_fence(lines[i]),
    ensures
        fenced(text::lines(rendered(info, lines) + rest)) == seq![
            RawBlock { info, body: text::join(lines, "\n"@) },
        ] + fenced(text::lines(rest)),
        requested(rendered(info, lines) + rest) == block_actions(
            info,
            text::lowercase(info),
            text::join(lines, "\n"@),
        ).plus(requested(rest)),
{
    reveal_strlit("```");
    reveal_strlit("```\n");
    reveal_strlit("\n");
    let open = "```"@ + info;
    let close = "```"@;
    let text = rendered(info, lines) + rest;
    text::lemma_trim(info);
    assert(text::trim_start(open) == open);
    assert(open.take(3) =~= "```"@);
    assert(open.skip(3) =~= info);
    assert(is_fence(open));
    assert(fence_info(open) == info);
    assert(text::trim_start(close) == close);
    assert(close.take(3) =~= close);
    assert(is_fence(close));
    if info.len() > 0 {
        assert(info.last() != '\r');
        assert(open.last() == info.last());
    }
    let all = seq![open] + lines + seq![close];
    assert forall|i: int| 0 <= i < all.len() implies text::is_line(#[trigger] all[i]) by {
        if i == 0 {
            assert(all[0] == open);
        } else if i < all.len() - 1 {
            assert(all[i] == lines[i - 1]);
        }
    }
    lemma_terminated_concat(seq![open] + lines, seq![close]);
    lemma_terminated_concat(seq![open], lines);
    lemma_terminated_single(open);
    lemma_terminated_single(close);
    assert("```\n"@ =~= close + seq!['\n']);
    assert("\n"@ =~= seq!['\n']);
    assert(rendered(info, lines) =~= text::terminated(all));
    text::lines_are_read_back(all, rest);
    let found = all + text::lines(rest);
    let inner = found.drop_first();
    assert(found[0] == open);
    assert forall|i: int| 0 <= i < lines.len() implies !is_fence(#[trigger] inner[i]) by {
        assert(inner[i] == lines[i]);
    }
    assert(inner[lines.len() as int] == close);
    lemma_lines_before_fence_are(inner, lines.len() as int);
    assert(inner.take(lines.len() as int) =~= lines);
    assert(lines_behind(inner, lines.len() as int) =~= text::lines(rest));
    let raw = RawBlock { info, body: text::join(lines, "\n"@) };
    assert(fenced(found) =~= seq![raw] + fenced(text::lines(rest)));
    assert(fenced(found).drop_first() =~= fenced(text::lines(rest)));
}

proof fn lemma_terminated_single(line: Seq<char>)
    ensures
        text::terminated(seq![line]) == line + seq!['\n'],
{
    assert(seq![line].drop_first() =~= seq![]);
    assert(text::terminated(seq![line]) =~= line + seq!['\n'] + text::terminated(seq![]));
    assert(text::terminated(seq![line]) =~= line + seq!['\n']);
}

proof fn lemma_terminated_concat(a: Seq<Seq<char>>, b: Seq<Seq<char>>)
    ensures
        text::terminated(a + b) == text::terminated(a) + text::terminated(b),
    decreases a.len(),
{
    if a.len() == 0 {
        assert(a + b =~= b);
        assert(text::terminated(a) + text::terminated(b) =~= text::terminated(b));
    } else {
        lemma_terminated_concat(a.drop_first(), b);
        assert((a + b).drop_first() =~= a.drop_first() + b);
        assert((a + b)[0] == a[0]);
        assert(text::terminated(a + b) =~= text::terminated(a) + text::terminated(b));
    }
}

/// A file that a reply writes out in a block is the file that is asked for, path and content alike.
pub proof fn written_files_are_read_back(path: Seq<char>, lines: Seq<Seq<char>>, rest: Seq<char>)
    requires
        is_info(path),
        forall|i: int|
            0 <= i < lines.len() ==> text::is_line(#[trigger] lines[i]) && !is_fence(lines[i]),
    ensures
        requested(rendered("file:"@ + path, lines) + rest) == (BlocksView {
            files: seq![(path, text::join(lines, "\n"@))],
            ..BlocksView::none()
        }).plus(requested(rest)),
{
    reveal_strlit("file:");
    let info = "file:"@ + path;
    text::lemma_trim(path);
    assert(info[0] == 'f');
    assert(path.len() > 0 ==> info.last() == path.last());
    assert(path.len() == 0 ==> info.last() == ':');
    text::lemma_trim_of_trimmed(info);
    assert forall|i: int| 0 <= i < info.len() implies #[trigger] info[i] != '\n' by {
        if i >= 5 {
            assert(info[i] == path[i - 5]);
        }
    }
    blocks_are_read_back(info, lines, rest);
    assert(info.take(5) =~= "file:"@);
    assert(info.skip(5) =~= path);
}

/// The commands of a block have no white space around them, are not blank, and are one line each.
pub proof fn commands_are_single_trimmed_lines(body: Seq<char>)
    ensures
        forall|k: int|
            0 <= k < commands(body).len() ==> {
                &&& (#[trigger] commands(body)[k]).len() > 0
                &&& text::trim(commands(body)[k]) == commands(body)[k]
                &&& !commands(body)[k].contains('\n')
            },
{
    let trimmed = text::lines(body).map_values(|line: Seq<char>| text::trim(line));
    let keep = |command: Seq<char>| command.len() > 0;
    let found = commands(body);
    assert forall|k: int| 0 <= k < found.len() implies {
        &&& (#[trigger] found[k]).len() > 0
        &&& text::trim(found[k]) == found[k]
        &&& !found[k].contains('\n')
    } by {
        trimmed.lemma_filter_pred(keep, k);
        assert(found.contains(found[k]));
        trimmed.lemma_filter_contains_rev(keep, found[k]);
        let j = choose|j: int| 0 <= j < trimmed.len() && trimmed[j] == found[k];
        let line = text::lines(body)[j];
        text::trim_of_trim(line);
        text::lemma_lines_hold_no_line_feed(body);
        lemma_trim_keeps_out(line, '\n');
    }
}

/// A character that a text does not hold, its trimmed form does not hold either.
proof fn lemma_trim_keeps_out(s: Seq<char>, c: char)
    requires
        forall|i: int| 0 <= i < s.len() ==> s[i] != c,
    ensures
        !text::trim(s).contains(c),
{
    lemma_trim_start_keeps_out(s, c);
    lemma_trim_end_keeps_out(text::trim_start(s), c);
}

proof fn lemma_trim_start_keeps_out(s: Seq<char>, c: char)
    requires
        forall|i: int| 0 <= i < s.len() ==> s[i] != c,
    ensures
        forall|i: int| 0 <= i < text::trim_start(s).len() ==> text::trim_start(s)[i] != c,
    decreases s.len(),
{
    if s.len() > 0 && text::is_white_space(s[0]) {
        lemma_trim_start_keeps_out(s.drop_first(), c);
        assert(text::trim_start(s) == text::trim_start(s.drop_first()));
    } else {
        assert(text::trim_start(s) == s);
    }
}

proof fn lemma_trim_end_keeps_out(s: Seq<char>, c: char)
    requires
        forall|i: int| 0 <= i < s.len() ==> s[i] != c,
    ensures
        forall|i: int| 0 <= i < text::trim_end(s).len() ==> text::trim_end(s)[i] != c,
    decreases s.len(),
{
    if s.len() > 0 && text::is_white_space(s.last()) {
        lemma_trim_end_keeps_out(s.drop_last(), c);
        assert(text::trim_end(s) == text::trim_end(s.drop_last()));
    } else {
        assert(text::trim_end(s) == s);
    }
}

/// The number of fences among `lines`.
pub open spec fn fences(lines: Seq<Seq<char>>) -> nat {
    lines.filter(|line: Seq<char>| is_fence(line)).len()
}

proof fn lemma_first_fence(lines: Seq<Seq<char>>)
    requires
        lines.len() > 0,
    ensures
        fences(lines) == fences(lines.drop_first()) + (if is_fence(lines[0]) {
            1nat
        } else {
            0nat
        }),
{
    let first = seq![lines[0]];
    let keep = |line: Seq<char>| is_fence(line);
    assert(lines =~= first + lines.drop_first());
    Seq::filter_distributes_over_add(first, lines.drop_first(), keep);
    assert(first.drop_last() =~= seq![]);
    reveal_with_fuel(Seq::filter, 2);
}

proof fn lemma_fences_behind(lines: Seq<Seq<char>>, n: int)
    requires
        0 <= n <= lines.len(),
        forall|i: int| 0 <= i < n ==> !is_fence(#[trigger] lines[i]),
    ensures
        fences(lines) == fences(lines.skip(n)),
    decreases n,
{
    if n == 0 {
        assert(lines.skip(0) =~= lines);
    } else {
        let rest = lines.drop_first();
        lemma_first_fence(lines);
        assert(!is_fence(lines[0]));
        assert forall|i: int| 0 <= i < n - 1 implies !is_fence(#[trigger] rest[i]) by {
            assert(rest[i] == lines[i + 1]);
        }
        lemma_fences_behind(rest, n - 1);
        assert(rest.skip(n - 1) =~= lines.skip(n));
    }
}

/// Where every block of `a` is closed, the blocks of `a` and of `b` are those of the whole.
proof fn lemma_fenced_concat(a: Seq<Seq<char>>, b: Seq<Seq<char>>)
    requires
        fences(a) % 2 == 0,
    ensures
        fenced(a + b) == fenced(a) + fenced(b),
    decreases a.len(),
{
    let whole = a + b;
    if a.len() == 0 {
        assert(whole =~= b);
        assert(fenced(a) + fenced(b) =~= fenced(b));
    } else {
        let rest = a.drop_first();
        assert(whole[0] == a[0]);
        assert(whole.drop_first() =~= rest + b);
        lemma_first_fence(a);
        if !is_fence(a[0]) {
            lemma_fenced_concat(rest, b);
        } else {
            let n = lines_before_fence(rest);
            lemma_lines_before_fence(rest);
            lemma_fences_behind(rest, n);
            let left = rest.skip(n);
            if n == rest.len() {
                assert(left =~= seq![]);
                assert(left.filter(|line: Seq<char>| is_fence(line)) =~= seq![]) by {
                    reveal_with_fuel(Seq::filter, 1);
                }
                assert(fences(a) == 1);
            }
            lemma_first_fence(left);
            assert(left.drop_first() =~= rest.skip(n + 1));
            assert((rest + b)[n] == rest[n]);
            assert forall|i: int| 0 <= i < n implies !is_fence(#[trigger] (rest + b)[i]) by {
                assert((rest + b)[i] == rest[i]);
            }
            lemma_lines_before_fence_are(rest + b, n);
            assert((rest + b).take(n) =~= rest.take(n));
            assert((rest + b).skip(n + 1) =~= rest.skip(n + 1) + b);
            lemma_fenced_concat(rest.skip(n + 1), b);
            assert(fenced(whole) =~= fenced(a) + fenced(b));
        }
    }
}

proof fn lemma_all_actions_concat(a: Seq<RawBlock>, b: Seq<RawBlock>)
    ensures
        all_actions(a + b) == all_actions(a).plus(all_actions(b)),
    decreases a.len(),
{
    if a.len() == 0 {
        assert(a + b =~= b);
        assert(all_actions(a).plus(all_actions(b)) =~= all_actions(b));
    } else {
        lemma_all_actions_concat(a.drop_first(), b);
        assert((a + b).drop_first() =~= a.drop_first() + b);
        assert((a + b)[0] == a[0]);
        assert(all_actions(a + b) =~= all_actions(a).plus(all_actions(b)));
    }
}

/// A reply that is cut between two of its lines, outside its blocks, asks for what its parts ask
/// for, one after the other.
pub proof fn cut_replies_ask_for_the_same(a: Seq<char>, b: Seq<char>)
    requires
        a.len() > 0 ==> a.last() == '\n',
        fences(text::lines(a)) % 2 == 0,
    ensures
        requested(a + b) == requested(a).plus(requested(b)),
{
    text::lines_of_parts(a, b);
    lemma_fenced_concat(text::lines(a), text::lines(b));
    lemma_all_actions_concat(fenced(text::lines(a)), fenced(text::lines(b)));
}

proof fn lemma_run_words_are_letters(word: Seq<char>)
    requires
        is_run_word(word),
    ensures
        word.len() > 0,
        forall|i: int| 0 <= i < word.len() ==> 'a' <= #[trigger] word[i] <= 'z',
{
    reveal_strlit("run");
    reveal_strlit("sh");
    reveal_strlit("bash");
    reveal_strlit("cmd");
    reveal_strlit("shell");
    reveal_strlit("console");
    reveal_strlit("powershell");
    reveal_strlit("ps");
    reveal_strlit("bat");
}

proof fn lemma_no_colon_no_prefix(info: Seq<char>, prefix: Seq<char>)
    requires
        forall|i: int| 0 <= i < info.len() ==> #[trigger] info[i] != ':',
        prefix.len() > 0,
        prefix.last() == ':',
    ensures
        text::after_prefix(info, prefix) is None,
{
    if text::has_prefix(info, prefix) {
        let n = prefix.len() as int;
        assert(info.take(n)[n - 1] == info[n - 1]);
    }
}

/// A block whose fence says a run word, in letters of either case, runs its lines as commands. That
/// the lower case of such a fence is the ASCII one is known wherever the reply was parsed.
pub proof fn run_blocks_run(info: Seq<char>, lines: Seq<Seq<char>>, rest: Seq<char>)
    requires
        vstd::utf8::is_ascii_chars(info),
        is_run_word(text::ascii_lowercase(info)),
        forall|i: int|
            0 <= i < lines.len() ==> text::is_line(#[trigger] lines[i]) && !is_fence(lines[i]),
    ensures
        lowers_ascii(rendered(info, lines) + rest) ==> requested(rendered(info, lines) + rest) == (
        BlocksView {
            runs: commands(text::join(lines, "\n"@)),
            ..BlocksView::none()
        }).plus(requested(rest)),
{
    let lower = text::ascii_lowercase(info);
    let reply = rendered(info, lines) + rest;
    lemma_run_words_are_letters(lower);
    assert forall|i: int| 0 <= i < info.len() implies {
        &&& #[trigger] info[i] != ':'
        &&& info[i] != '\n'
        &&& !text::is_white_space(info[i])
    } by {
        assert('a' <= lower[i] <= 'z');
    }
    text::lemma_trim_of_trimmed(info);
    blocks_are_read_back(info, lines, rest);
    assert(fenced(text::lines(reply))[0].info == info);
    reveal_strlit("file:");
    reveal_strlit("File:");
    reveal_strlit("read:");
    reveal_strlit("Read:");
    reveal_strlit("search:");
    reveal_strlit("Search:");
    reveal_strlit("grep:");
    reveal_strlit("delete:");
    reveal_strlit("Delete:");
    reveal_strlit("remove:");
    reveal_strlit("rm:");
    lemma_no_colon_no_prefix(info, "file:"@);
    lemma_no_colon_no_prefix(info, "File:"@);
    lemma_no_colon_no_prefix(info, "read:"@);
    lemma_no_colon_no_prefix(info, "Read:"@);
    lemma_no_colon_no_prefix(info, "search:"@);
    lemma_no_colon_no_prefix(info, "Search:"@);
    lemma_no_colon_no_prefix(info, "grep:"@);
    lemma_no_colon_no_prefix(info, "delete:"@);
    lemma_no_colon_no_prefix(info, "Delete:"@);
    lemma_no_colon_no_prefix(info, "remove:"@);
    lemma_no_colon_no_prefix(info, "rm:"@);
}

/// `gap` can stand between a word and what it names: it is white space on one line, and none
/// where nothing is named.
pub open spec fn is_gap(gap: Seq<char>, target: Seq<char>) -> bool {
    &&& text::is_blank(gap)
    &&& forall|i: int| 0 <= i < gap.len() ==> #[trigger] gap[i] != '\n'
    &&& target.len() == 0 ==> gap.len() == 0
}

proof fn lemma_word_prefix(word: Seq<char>, gap: Seq<char>, target: Seq<char>)
    requires
        is_gap(gap, target),
        text::trim(target) == target,
    ensures
        text::after_prefix(word + gap + target, word) == Some(gap + target),
        text::trim(gap + target) == target,
{
    let info = word + gap + target;
    assert(info.take(word.len() as int) =~= word);
    assert(info.skip(word.len() as int) =~= gap + target);
    text::lemma_trim(target);
    text::trimming_takes_off_white_space(gap, target, seq![]);
    assert(gap + target + seq![] =~= gap + target);
}

proof fn lemma_info_of_word(word: Seq<char>, gap: Seq<char>, target: Seq<char>)
    requires
        word.len() > 0,
        !text::is_white_space(word[0]),
        word.last() == ':',
        forall|i: int| 0 <= i < word.len() ==> #[trigger] word[i] != '\n',
        is_gap(gap, target),
        is_info(target),
    ensures
        is_info(word + gap + target),
{
    let info = word + gap + target;
    text::lemma_trim(target);
    assert(info[0] == word[0]);
    if target.len() > 0 {
        assert(info.last() == target.last());
    } else {
        assert(info =~= word);
    }
    text::lemma_trim_of_trimmed(info);
    let n = word.len() as int;
    let m = n + gap.len() as int;
    assert forall|i: int| 0 <= i < info.len() implies #[trigger] info[i] != '\n' by {
        if i < n {
            assert(info[i] == word[i]);
        } else if i < m {
            assert(info[i] == gap[i - n]);
        } else {
            assert(info[i] == target[i - m]);
        }
    }
}

proof fn lemma_not_prefix(info: Seq<char>, prefix: Seq<char>, i: int)
    requires
        0 <= i < info.len(),
        i < prefix.len(),
        info[i] != prefix[i],
    ensures
        text::after_prefix(info, prefix) is None,
{
    if text::has_prefix(info, prefix) {
        assert(info.take(prefix.len() as int)[i] == info[i]);
    }
}

/// A block that names a file writes it: the whole path, and all of the lines of the block.
pub proof fn named_files_are_read_back(
    word: Seq<char>,
    gap: Seq<char>,
    target: Seq<char>,
    lines: Seq<Seq<char>>,
    rest: Seq<char>,
)
    requires
        word == "file:"@ || word == "File:"@,
        is_gap(gap, target),
        is_info(target),
        forall|i: int|
            0 <= i < lines.len() ==> text::is_line(#[trigger] lines[i]) && !is_fence(lines[i]),
    ensures
        requested(rendered(word + gap + target, lines) + rest) == (BlocksView {
            files: seq![(target, text::join(lines, "\n"@))],
            ..BlocksView::none()
        }).plus(requested(rest)),
{
    reveal_strlit("file:");
    reveal_strlit("File:");
    reveal_strlit("read:");
    reveal_strlit("Read:");
    reveal_strlit("search:");
    reveal_strlit("Search:");
    reveal_strlit("grep:");
    reveal_strlit("delete:");
    reveal_strlit("Delete:");
    reveal_strlit("remove:");
    reveal_strlit("rm:");
    let info = word + gap + target;
    assert(forall|i: int| 0 <= i < word.len() ==> info[i] == #[trigger] word[i]);
    lemma_info_of_word(word, gap, target);
    lemma_word_prefix(word, gap, target);
    blocks_are_read_back(info, lines, rest);
    if word == "file:"@ {
    } else if word == "File:"@ {
        assert(info[0] == word[0]);
        lemma_not_prefix(info, "file:"@, 0);
    }
}

/// A block that reads asks for exactly the file that it names, by its whole path.
pub proof fn reads_are_read_back(
    word: Seq<char>,
    gap: Seq<char>,
    target: Seq<char>,
    lines: Seq<Seq<char>>,
    rest: Seq<char>,
)
    requires
        word == "read:"@ || word == "Read:"@,
        is_gap(gap, target),
        is_info(target),
        forall|i: int|
            0 <= i < lines.len() ==> text::is_line(#[trigger] lines[i]) && !is_fence(lines[i]),
    ensures
        requested(rendered(word + gap + target, lines) + rest) == (BlocksView {
            reads: seq![target],
            ..BlocksView::none()
        }).plus(requested(rest)),
{
    reveal_strlit("file:");
    reveal_strlit("File:");
    reveal_strlit("read:");
    reveal_strlit("Read:");
    reveal_strlit("search:");
    reveal_strlit("Search:");
    reveal_strlit("grep:");
    reveal_strlit("delete:");
    reveal_strlit("Delete:");
    reveal_strlit("remove:");
    reveal_strlit("rm:");
    let info = word + gap + target;
    assert(forall|i: int| 0 <= i < word.len() ==> info[i] == #[trigger] word[i]);
    lemma_info_of_word(word, gap, target);
    lemma_word_prefix(word, gap, target);
    blocks_are_read_back(info, lines, rest);
    if word == "read:"@ {
        assert(info[0] == word[0]);
        lemma_not_prefix(info, "file:"@, 0);
        assert(info[0] == word[0]);
        lemma_not_prefix(info, "File:"@, 0);
    } else if word == "Read:"@ {
        assert(info[0] == word[0]);
        lemma_not_prefix(info, "file:"@, 0);
        assert(info[0] == word[0]);
        lemma_not_prefix(info, "File:"@, 0);
        assert(info[0] == word[0]);
        lemma_not_prefix(info, "read:"@, 0);
    }
}

/// A block that searches asks for exactly the text behind its first colon, whole, whatever colons
/// or blanks the text itself holds.
pub proof fn searches_are_read_back(
    word: Seq<char>,
    gap: Seq<char>,
    target: Seq<char>,
    lines: Seq<Seq<char>>,
    rest: Seq<char>,
)
    requires
        word == "search:"@ || word == "Search:"@ || word == "grep:"@,
        is_gap(gap, target),
        is_info(target),
        forall|i: int|
            0 <= i < lines.len() ==> text::is_line(#[trigger] lines[i]) && !is_fence(lines[i]),
    ensures
        requested(rendered(word + gap + target, lines) + rest) == (BlocksView {
            searches: seq![target],
            ..BlocksView::none()
        }).plus(requested(rest)),
{
    reveal_strlit("file:");
    reveal_strlit("File:");
    reveal_strlit("read:");
    reveal_strlit("Read:");
    reveal_strlit("search:");
    reveal_strlit("Search:");
    reveal_strlit("grep:");
    reveal_strlit("delete:");
    reveal_strlit("Delete:");
    reveal_strlit("remove:");
    reveal_strlit("rm:");
    let info = word + gap + target;
    assert(forall|i: int| 0 <= i < word.len() ==> info[i] == #[trigger] word[i]);
    lemma_info_of_word(word, gap, target);
    lemma_word_prefix(word, gap, target);
    blocks_are_read_back(info, lines, rest);
    if word == "search:"@ {
        assert(info[0] == word[0]);
        lemma_not_prefix(info, "file:"@, 0);
        assert(info[0] == word[0]);
        lemma_not_prefix(info, "File:"@, 0);
        assert(info[0] == word[0]);
        lemma_not_prefix(info, "read:"@, 0);
        assert(info[0] == word[0]);
        lemma_not_prefix(info, "Read:"@, 0);
    } else if word == "Search:"@ {
        assert(info[0] == word[0]);
        lemma_not_prefix(info, "file:"@, 0);
        assert(info[0] == word[0]);
        lemma_not_prefix(info, "File:"@, 0);
        assert(info[0] == word[0]);
        lemma_not_prefix(info, "read:"@, 0);
        assert(info[0] == word[0]);
        lemma_not_prefix(info, "Read:"@, 0);
        assert(info[0] == word[0]);
        lemma_not_prefix(info, "search:"@, 0);
    } else if word == "grep:"@ {
        assert(info[0] == word[0]);
        lemma_not_prefix(info, "file:"@, 0);
        assert(info[0] == word[0]);
        lemma_not_prefix(info, "File:"@, 0);
        assert(info[0] == word[0]);
        lemma_not_prefix(info, "read:"@, 0);
        assert(info[0] == word[0]);
        lemma_not_prefix(info, "Read:"@, 0);
        assert(info[0] == word[0]);
        lemma_not_prefix(info, "search:"@, 0);
        assert(info[0] == word[0]);
        lemma_not_prefix(info, "Search:"@, 0);
    }
}

/// A block that deletes asks for exactly the file or folder that it names, by its whole path.
pub proof fn deletes_are_read_back(
    word: Seq<char>,
    gap: Seq<char>,
    target: Seq<char>,
    lines: Seq<Seq<char>>,
    rest: Seq<char>,
)
    requires
        word == "delete:"@ || word == "Delete:"@ || word == "remove:"@ || word == "rm:"@,
        is_gap(gap, target),
        is_info(target),
        forall|i: int|
            0 <= i < lines.len() ==> text::is_line(#[trigger] lines[i]) && !is_fence(lines[i]),
    ensures
        requested(rendered(word + gap + target, lines) + rest) == (BlocksView {
            deletes: seq![target],
            ..BlocksView::none()
        }).plus(requested(rest)),
{
    reveal_strlit("file:");
    reveal_strlit("File:");
    reveal_strlit("read:");
    reveal_strlit("Read:");
    reveal_strlit("search:");
    reveal_strlit("Search:");
    reveal_strlit("grep:");
    reveal_strlit("delete:");
    reveal_strlit("Delete:");
    reveal_strlit("remove:");
    reveal_strlit("rm:");
    let info = word + gap + target;
    assert(forall|i: int| 0 <= i < word.len() ==> info[i] == #[trigger] word[i]);
    lemma_info_of_word(word, gap, target);
    lemma_word_prefix(word, gap, target);
    blocks_are_read_back(info, lines, rest);
    if word == "delete:"@ {
        assert(info[0] == word[0]);
        lemma_not_prefix(info, "file:"@, 0);
        assert(info[0] == word[0]);
        lemma_not_prefix(info, "File:"@, 0);
        assert(info[0] == word[0]);
        lemma_not_prefix(info, "read:"@, 0);
        assert(info[0] == word[0]);
        lemma_not_prefix(info, "Read:"@, 0);
        assert(info[0] == word[0]);
        lemma_not_prefix(info, "search:"@, 0);
        assert(info[0] == word[0]);
        lemma_not_prefix(info, "Search:"@, 0);
        assert(info[0] == word[0]);
        lemma_not_prefix(info, "grep:"@, 0);
    } else if word == "Delete:"@ {
        assert(info[0] == word[0]);
        lemma_not_prefix(info, "file:"@, 0);
        assert(info[0] == word[0]);
        lemma_not_prefix(info, "File:"@, 0);
        assert(info[0] == word[0]);
        lemma_not_prefix(info, "read:"@, 0);
        assert(info[0] == word[0]);
        lemma_not_prefix(info, "Read:"@, 0);
        assert(info[0] == word[0]);
        lemma_not_prefix(info, "search:"@, 0);
        assert(info[0] == word[0]);
        lemma_not_prefix(info, "Search:"@, 0);
        assert(info[0] == word[0]);
        lemma_not_prefix(info, "grep:"@, 0);
        assert(info[0] == word[0]);
        lemma_not_prefix(info, "delete:"@, 0);
    } else if word == "remove:"@ {
        assert(info[0] == word[0]);
        lemma_not_prefix(info, "file:"@, 0);
        assert(info[0] == word[0]);
        lemma_not_prefix(info, "File:"@, 0);
        assert(info[2] == word[2]);
        lemma_not_prefix(info, "read:"@, 2);
        assert(info[0] == word[0]);
        lemma_not_prefix(info, "Read:"@, 0);
        assert(info[0] == word[0]);
        lemma_not_prefix(info, "search:"@, 0);
        assert(info[0] == word[0]);
        lemma_not_prefix(info, "Search:"@, 0);
        assert(info[0] == word[0]);
        lemma_not_prefix(info, "grep:"@, 0);
        assert(info[0] == word[0]);
        lemma_not_prefix(info, "delete:"@, 0);
        assert(info[0] == word[0]);
        lemma_not_prefix(info, "Delete:"@, 0);
    } else if word == "rm:"@ {
        assert(info[0] == word[0]);
        lemma_not_prefix(info, "file:"@, 0);
        assert(info[0] == word[0]);
        lemma_not_prefix(info, "File:"@, 0);
        assert(info[1] == word[1]);
        lemma_not_prefix(info, "read:"@, 1);
        assert(info[0] == word[0]);
        lemma_not_prefix(info, "Read:"@, 0);
        assert(info[0] == word[0]);
        lemma_not_prefix(info, "search:"@, 0);
        assert(info[0] == word[0]);
        lemma_not_prefix(info, "Search:"@, 0);
        assert(info[0] == word[0]);
        lemma_not_prefix(info, "grep:"@, 0);
        assert(info[0] == word[0]);
        lemma_not_prefix(info, "delete:"@, 0);
        assert(info[0] == word[0]);
        lemma_not_prefix(info, "Delete:"@, 0);
        assert(info[1] == word[1]);
        lemma_not_prefix(info, "remove:"@, 1);
    }
}

/// A block whose fence begins with no such word, and is no run word, asks for nothing.
pub proof fn other_blocks_ask_for_nothing(info: Seq<char>, lower: Seq<char>, body: Seq<char>)
    requires
        !text::has_prefix(info, "file:"@),
        !text::has_prefix(info, "File:"@),
        !text::has_prefix(info, "read:"@),
        !text::has_prefix(info, "Read:"@),
        !text::has_prefix(info, "search:"@),
        !text::has_prefix(info, "Search:"@),
        !text::has_prefix(info, "grep:"@),
        !text::has_prefix(info, "delete:"@),
        !text::has_prefix(info, "Delete:"@),
        !text::has_prefix(info, "remove:"@),
        !text::has_prefix(info, "rm:"@),
        !seq![
            "run"@,
            "sh"@,
            "bash"@,
            "cmd"@,
            "shell"@,
            "console"@,
            "powershell"@,
            "ps"@,
            "bat"@,
        ].contains(lower),
    ensures
        block_actions(info, lower, body) == BlocksView::none(),
{
    let words = seq![
        "run"@,
        "sh"@,
        "bash"@,
        "cmd"@,
        "shell"@,
        "console"@,
        "powershell"@,
        "ps"@,
        "bat"@,
    ];
    assert(words[0] == "run"@ && words[1] == "sh"@ && words[2] == "bash"@);
    assert(words[3] == "cmd"@ && words[4] == "shell"@ && words[5] == "console"@);
    assert(words[6] == "powershell"@ && words[7] == "ps"@ && words[8] == "bat"@);
}

/// A fence may be indented, and says what stands behind its three backquotes, without the white
/// space around that. A line without a backquote is none.
pub proof fn fences_may_be_indented(indent: Seq<char>, said: Seq<char>, plain: Seq<char>)
    requires
        text::is_blank(indent),
        forall|i: int| 0 <= i < plain.len() ==> #[trigger] plain[i] != '`',
    ensures
        is_fence(indent + "```"@ + said),
        fence_info(indent + "```"@ + said) == text::trim(said),
        !is_fence(plain),
{
    reveal_strlit("```");
    let line = "```"@ + said;
    assert(indent + "```"@ + said =~= indent + line);
    text::trimming_the_start_takes_off_white_space(indent, line);
    assert(line.take(3) =~= "```"@);
    assert(line.skip(3) =~= said);
    lemma_trim_start_keeps_out(plain, '`');
    if is_fence(plain) {
        let s = text::trim_start(plain);
        assert(s.take(3)[0] == s[0]);
    }
}

/// The commands of a block are those of its lines, in order: each line that is not blank, without
/// the white space around it.
pub proof fn every_line_is_a_command(
    a: Seq<char>,
    before: Seq<char>,
    command: Seq<char>,
    behind: Seq<char>,
    b: Seq<char>,
)
    requires
        a.len() > 0 ==> a.last() == '\n',
        text::is_blank(before),
        text::is_blank(behind),
        command.len() > 0 ==> !text::is_white_space(command[0]) && !text::is_white_space(
            command.last(),
        ),
        forall|i: int|
            0 <= i < (before + command + behind).len() ==> #[trigger] (before + command
                + behind)[i] != '\n',
    ensures
        commands(a + b) == commands(a) + commands(b),
        commands(before + command + behind) == (if command.len() > 0 {
            seq![command]
        } else {
            seq![]
        }),
{
    let strip = |line: Seq<char>| text::trim(line);
    let keep = |command: Seq<char>| command.len() > 0;
    text::lines_of_parts(a, b);
    let la = text::lines(a);
    let lb = text::lines(b);
    assert((la + lb).map_values(strip) =~= la.map_values(strip) + lb.map_values(strip));
    Seq::filter_distributes_over_add(la.map_values(strip), lb.map_values(strip), keep);
    let line = before + command + behind;
    text::trimming_takes_off_white_space(before, command, behind);
    text::lemma_position_is(line, '\n', line.len() as int);
    reveal_with_fuel(Seq::filter, 2);
    if line.len() == 0 {
        assert(text::lines(line) =~= seq![]);
        assert(text::lines(line).map_values(strip) =~= seq![]);
        assert(command.len() == 0);
    } else {
        assert(text::lines(line) =~= seq![line]);
        let one = text::lines(line).map_values(strip);
        assert(one =~= seq![command]);
        assert(one.drop_last() =~= seq![]);
        assert(one.last() == command);
        if command.len() > 0 {
            assert(one.filter(keep) =~= seq![command]);
        } else {
            assert(one.filter(keep) =~= seq![]);
        }
    }
}

/// A block that is not closed reaches to the end of the reply: it asks for what it would ask for
/// if it were closed there.
pub proof fn open_blocks_reach_to_the_end(info: Seq<char>, lines: Seq<Seq<char>>)
    requires
        is_info(info),
        forall|i: int|
            0 <= i < lines.len() ==> text::is_line(#[trigger] lines[i]) && !is_fence(lines[i]),
    ensures
        requested("```"@ + info + "\n"@ + text::terminated(lines)) == requested(
            rendered(info, lines),
        ),
{
    reveal_strlit("```");
    reveal_strlit("\n");
    let open = "```"@ + info;
    let reply = "```"@ + info + "\n"@ + text::terminated(lines);
    text::lemma_trim(info);
    assert(text::trim_start(open) == open);
    assert(open.take(3) =~= "```"@);
    assert(open.skip(3) =~= info);
    if info.len() > 0 {
        assert(open.last() == info.last());
    }
    let all = seq![open] + lines;
    assert forall|i: int| 0 <= i < all.len() implies text::is_line(#[trigger] all[i]) by {
        if i > 0 {
            assert(all[i] == lines[i - 1]);
        }
    }
    lemma_terminated_concat(seq![open], lines);
    lemma_terminated_single(open);
    assert("\n"@ =~= seq!['\n']);
    assert(reply =~= text::terminated(all) + seq![]);
    text::lines_are_read_back(all, seq![]);
    assert(all + text::lines(seq![]) =~= all);
    assert(all.drop_first() =~= lines);
    lemma_lines_before_fence_are(lines, lines.len() as int);
    assert(lines.take(lines.len() as int) =~= lines);
    let raw = RawBlock { info, body: text::join(lines, "\n"@) };
    assert(fenced(all) =~= seq![raw] + fenced(seq![]));
    blocks_are_read_back(info, lines, seq![]);
    assert(rendered(info, lines) + seq![] =~= rendered(info, lines));
    assert(text::lines(seq![]) =~= Seq::<Seq<char>>::empty());
    assert(fenced(all) =~= fenced(text::lines(rendered(info, lines))));
}

} // verus!
