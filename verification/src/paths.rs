//! Paths that a model or a user names, held to the folder they are relative to.

use vstd::prelude::*;

use crate::text;

verus! {

/// The families of operating systems that the assistant tells apart.
#[derive(Clone, Copy, Debug, PartialEq, Eq, Structural)]
pub enum Platform {
    Windows,
    MacOs,
    Unix,
}

/// A path at or below `root`: the one that comes of pushing `names` onto it, one after the other.
#[derive(Debug)]
pub struct WorkspacePath<R> {
    pub root: R,
    pub names: Vec<String>,
}

/// `c` separates the names of a path.
pub open spec fn is_separator(platform: Platform, c: char) -> bool {
    c == '/' || (platform == Platform::Windows && c == '\\')
}

/// `c` is a letter that can name a drive.
pub open spec fn is_drive_letter(c: char) -> bool {
    ('a' <= c && c <= 'z') || ('A' <= c && c <= 'Z')
}

/// `s` begins with the name of a drive. What is pushed onto a path then takes its place.
pub open spec fn names_drive(platform: Platform, s: Seq<char>) -> bool {
    platform == Platform::Windows && s.len() > 1 && is_drive_letter(s[0]) && s[1] == ':'
}

/// `rel` begins at the root of a file system or on a drive.
pub open spec fn is_absolute(platform: Platform, rel: Seq<char>) -> bool {
    (rel.len() > 0 && is_separator(platform, rel[0])) || names_drive(platform, rel)
}

/// The position of the first separator of `s`, or its length where there is none.
pub open spec fn piece_end(platform: Platform, s: Seq<char>) -> int
    decreases s.len(),
{
    if s.len() == 0 || is_separator(platform, s[0]) {
        0
    } else {
        1 + piece_end(platform, s.drop_first())
    }
}

proof fn lemma_piece_end(platform: Platform, s: Seq<char>)
    ensures
        0 <= piece_end(platform, s) <= s.len(),
        forall|i: int| 0 <= i < piece_end(platform, s) ==> !is_separator(platform, #[trigger] s[i]),
        piece_end(platform, s) < s.len() ==> is_separator(platform, s[piece_end(platform, s)]),
    decreases s.len(),
{
    if s.len() > 0 && !is_separator(platform, s[0]) {
        let t = s.drop_first();
        lemma_piece_end(platform, t);
        assert forall|i: int| 0 <= i < piece_end(platform, s) implies !is_separator(
            platform,
            #[trigger] s[i],
        ) by {
            if i > 0 {
                assert(t[i - 1] == s[i]);
            }
        }
        if piece_end(platform, s) < s.len() {
            assert(t[piece_end(platform, t)] == s[piece_end(platform, s)]);
        }
    }
}

proof fn lemma_piece_end_at(platform: Platform, s: Seq<char>, n: int)
    requires
        0 <= n <= s.len(),
        forall|i: int| 0 <= i < n ==> !is_separator(platform, #[trigger] s[i]),
        n < s.len() ==> is_separator(platform, s[n]),
    ensures
        piece_end(platform, s) == n,
{
    lemma_piece_end(platform, s);
    let m = piece_end(platform, s);
    if m < n {
        assert(!is_separator(platform, s[m]));
    } else if n < m {
        assert(!is_separator(platform, s[n]));
    }
}

/// What stands before, between and behind the separators of `s`.
pub open spec fn pieces(platform: Platform, s: Seq<char>) -> Seq<Seq<char>>
    decreases s.len(),
    via pieces_decreases
{
    let n = piece_end(platform, s);
    if n >= s.len() {
        seq![s]
    } else {
        seq![s.take(n)] + pieces(platform, s.skip(n + 1))
    }
}

#[via_fn]
proof fn pieces_decreases(platform: Platform, s: Seq<char>) {
    lemma_piece_end(platform, s);
}

/// `piece` names a file or a folder: it is not empty and does not stand for the folder it is in.
pub open spec fn is_name(piece: Seq<char>) -> bool {
    piece.len() > 0 && piece != "."@
}

/// The names of `rel`, from the outermost folder inwards.
pub open spec fn names(platform: Platform, rel: Seq<char>) -> Seq<Seq<char>> {
    pieces(platform, rel).filter(|piece: Seq<char>| is_name(piece))
}

/// One of `pieces` names a drive.
pub open spec fn any_names_drive(platform: Platform, pieces: Seq<Seq<char>>) -> bool {
    exists|k: int| 0 <= k < pieces.len() && names_drive(platform, #[trigger] pieces[k])
}

/// The names that lead from a folder to `rel`, or why there are none: an absolute path, one that
/// leads up and one that turns to a drive on its way are refused.
pub open spec fn relative_names(platform: Platform, rel: Seq<char>) -> Result<
    Seq<Seq<char>>,
    Seq<char>,
> {
    if is_absolute(platform, rel) {
        Err("절대 경로는 허용되지 않습니다."@)
    } else if pieces(platform, rel).contains(".."@) {
        Err("'..' 경로는 허용되지 않습니다."@)
    } else if any_names_drive(platform, pieces(platform, rel)) {
        Err("절대 경로는 허용되지 않습니다."@)
    } else {
        Ok(names(platform, rel))
    }
}

/// Whether `c` separates the names of a path.
fn separator(platform: Platform, c: char) -> (b: bool)
    ensures
        b == is_separator(platform, c),
{
    c == '/' || (platform == Platform::Windows && c == '\\')
}

/// Whether `s` begins with the name of a drive.
fn on_drive(platform: Platform, s: &str) -> (b: bool)
    ensures
        b == names_drive(platform, s@),
{
    let v: Vec<char> = text::chars_of(s);
    platform == Platform::Windows && v.len() > 1 && (('a' <= v[0] && v[0] <= 'z') || ('A' <= v[0]
        && v[0] <= 'Z')) && v[1] == ':'
}

/// What stands before, between and behind the separators of `s`.
fn split_path(platform: Platform, s: &str) -> (r: Vec<String>)
    ensures
        text::texts(r@) == pieces(platform, s@),
{
    let v: Vec<char> = text::chars_of(s);
    let n: usize = v.len();
    let mut r: Vec<String> = Vec::new();
    let mut start: usize = 0;
    let mut i: usize = 0;
    assert(v@.skip(0) =~= v@);
    assert(text::texts(r@) + pieces(platform, v@) =~= pieces(platform, v@));
    while i < n
        invariant
            n == v@.len(),
            v@ == s@,
            start <= i <= n,
            forall|k: int| start <= k < i ==> !is_separator(platform, #[trigger] v@[k]),
            text::texts(r@) + pieces(platform, v@.skip(start as int)) == pieces(platform, s@),
        decreases n - i,
    {
        if separator(platform, v[i]) {
            let ghost rest = v@.skip(start as int);
            let piece: String = text::text_of(&v, start, i);
            proof {
                lemma_piece_end_at(platform, rest, i - start);
                assert(piece@ =~= rest.take(i - start));
                assert(rest.skip(i - start + 1) =~= v@.skip(i + 1));
            }
            let ghost before = r@;
            r.push(piece);
            assert(text::texts(r@) =~= text::texts(before).push(piece@));
            assert(text::texts(r@) + pieces(platform, v@.skip(i + 1)) =~= text::texts(before)
                + pieces(platform, rest));
            start = i + 1;
        }
        i = i + 1;
    }
    let ghost rest = v@.skip(start as int);
    let piece: String = text::text_of(&v, start, n);
    proof {
        lemma_piece_end_at(platform, rest, n - start);
        assert(piece@ =~= rest);
    }
    let ghost before = r@;
    r.push(piece);
    assert(text::texts(r@) =~= text::texts(before) + pieces(platform, rest));
    r
}

/// The names that lead from a folder to `rel`, or why there are none.
pub fn names_below(platform: Platform, rel: &str) -> (r: Result<Vec<String>, String>)
    ensures
        match r {
            Ok(found) => relative_names(platform, rel@) == Ok::<Seq<Seq<char>>, Seq<char>>(
                text::texts(found@),
            ),
            Err(e) => relative_names(platform, rel@) == Err::<Seq<Seq<char>>, Seq<char>>(e@),
        },
{
    let v: Vec<char> = text::chars_of(rel);
    let rooted: bool = v.len() > 0 && separator(platform, v[0]);
    if rooted || on_drive(platform, rel) {
        return Err("절대 경로는 허용되지 않습니다.".to_owned());
    }
    let parts: Vec<String> = split_path(platform, rel);
    let ghost all = pieces(platform, rel@);
    let ghost keep = |piece: Seq<char>| is_name(piece);
    let mut found: Vec<String> = Vec::new();
    let mut to_drive: bool = false;
    let mut i: usize = 0;
    assert(all.take(0).filter(keep) =~= seq![]) by {
        reveal(Seq::filter);
    }
    assert(text::texts(found@) =~= seq![]);
    while i < parts.len()
        invariant
            all == text::texts(parts@),
            all == pieces(platform, rel@),
            !is_absolute(platform, rel@),
            keep == (|piece: Seq<char>| is_name(piece)),
            i <= parts@.len(),
            forall|k: int| 0 <= k < i ==> #[trigger] all[k] != ".."@,
            to_drive == any_names_drive(platform, all.take(i as int)),
            text::texts(found@) == all.take(i as int).filter(keep),
        decreases parts@.len() - i,
    {
        let piece: String = parts[i].clone();
        proof {
            assert(all[i as int] == piece@);
            assert(all.take(i + 1).drop_last() =~= all.take(i as int));
            reveal(Seq::filter);
        }
        if text::same_text(piece.as_str(), "..") {
            assert(all.contains(".."@));
            return Err("'..' 경로는 허용되지 않습니다.".to_owned());
        }
        let ghost done = all.take(i + 1);
        assert(done[i as int] == piece@);
        if on_drive(platform, piece.as_str()) {
            to_drive = true;
        }
        proof {
            if any_names_drive(platform, all.take(i as int)) {
                let k = choose|k: int|
                    0 <= k < i && names_drive(platform, #[trigger] all.take(i as int)[k]);
                assert(done[k] == all.take(i as int)[k]);
            }
            if any_names_drive(platform, done) && !names_drive(platform, piece@) {
                let k = choose|k: int| 0 <= k <= i && names_drive(platform, #[trigger] done[k]);
                assert(done[k] == all.take(i as int)[k]);
            }
        }
        let ghost before = found@;
        if !piece.as_str().is_empty() && !text::same_text(piece.as_str(), ".") {
            found.push(piece);
            assert(text::texts(found@) =~= text::texts(before).push(piece@));
        }
        i = i + 1;
    }
    assert(all.take(i as int) =~= all);
    if to_drive {
        return Err("절대 경로는 허용되지 않습니다.".to_owned());
    }
    Ok(found)
}

/// Resolves a workspace-relative path, rejecting anything that escapes the root.
pub fn resolve<R>(root: R, rel: &str, platform: Platform) -> (r: Result<WorkspacePath<R>, String>)
    ensures
        match r {
            Ok(path) => {
                &&& path.root == root
                &&& relative_names(platform, rel@) == Ok::<Seq<Seq<char>>, Seq<char>>(
                    text::texts(path.names@),
                )
            },
            Err(e) => relative_names(platform, rel@) == Err::<Seq<Seq<char>>, Seq<char>>(e@),
        },
{
    match names_below(platform, rel) {
        Ok(names) => Ok(WorkspacePath { root, names }),
        Err(e) => Err(e),
    }
}

/// What is opened: the path that `path` names at or below `root`, and `root` itself where there is none.
pub fn open_target<R>(root: R, path: Option<&str>, platform: Platform) -> (r: Result<
    WorkspacePath<R>,
    String,
>)
    ensures
        match path {
            None => r matches Ok(target) && target.root == root && target.names@.len() == 0,
            Some(rel) => match r {
                Ok(target) => {
                    &&& target.root == root
                    &&& relative_names(platform, rel@) == Ok::<Seq<Seq<char>>, Seq<char>>(
                        text::texts(target.names@),
                    )
                },
                Err(e) => relative_names(platform, rel@) == Err::<Seq<Seq<char>>, Seq<char>>(e@),
            },
        },
{
    match path {
        None => Ok(WorkspacePath { root, names: Vec::new() }),
        Some(rel) => resolve(root, rel, platform),
    }
}

/// `piece` holds no separator.
pub open spec fn is_plain(platform: Platform, piece: Seq<char>) -> bool {
    forall|i: int| 0 <= i < piece.len() ==> !is_separator(platform, #[trigger] piece[i])
}

/// `name` can be the name of an entry of a folder: it stands for no other folder, holds no
/// separator and names no drive.
pub open spec fn is_entry_name(platform: Platform, name: Seq<char>) -> bool {
    &&& is_name(name)
    &&& name != ".."@
    &&& is_plain(platform, name)
    &&& !names_drive(platform, name)
}

proof fn lemma_pieces_are_plain(platform: Platform, s: Seq<char>)
    ensures
        forall|k: int|
            0 <= k < pieces(platform, s).len() ==> is_plain(
                platform,
                #[trigger] pieces(platform, s)[k],
            ),
    decreases s.len(),
{
    lemma_piece_end(platform, s);
    let n = piece_end(platform, s);
    let all = pieces(platform, s);
    if n < s.len() {
        let rest = s.skip(n + 1);
        lemma_pieces_are_plain(platform, rest);
        assert forall|k: int| 0 <= k < all.len() implies is_plain(platform, #[trigger] all[k]) by {
            if k == 0 {
                assert(all[0] == s.take(n));
                assert forall|i: int| 0 <= i < all[0].len() implies !is_separator(
                    platform,
                    #[trigger] all[0][i],
                ) by {
                    assert(all[0][i] == s[i]);
                }
            } else {
                assert(all[k] == pieces(platform, rest)[k - 1]);
            }
        }
    }
}

/// A path that is accepted stays at or below its root: it is led there by names alone, none of
/// which is empty, leads up, stays in place, holds a separator or names a drive. A path without
/// names, such as `.`, is the root itself.
pub proof fn accepted_paths_do_not_leave_the_root(platform: Platform, rel: Seq<char>)
    ensures
        relative_names(platform, rel) matches Ok(found) ==> forall|k: int|
            0 <= k < found.len() ==> is_entry_name(platform, #[trigger] found[k]),
{
    let all = pieces(platform, rel);
    let keep = |piece: Seq<char>| is_name(piece);
    if relative_names(platform, rel) is Ok {
        lemma_pieces_are_plain(platform, rel);
        let found = all.filter(keep);
        assert forall|k: int| 0 <= k < found.len() implies is_entry_name(
            platform,
            #[trigger] found[k],
        ) by {
            all.lemma_filter_pred(keep, k);
            assert(found.contains(found[k]));
            all.lemma_filter_contains_rev(keep, found[k]);
            let j = choose|j: int| 0 <= j < all.len() && all[j] == found[k];
            assert(!names_drive(platform, all[j]));
        }
    }
}

proof fn lemma_pieces_of_joined(platform: Platform, s: Seq<char>, then: Seq<char>)
    ensures
        pieces(platform, s + "/"@ + then) == pieces(platform, s) + pieces(platform, then),
    decreases s.len(),
{
    reveal_strlit("/");
    lemma_piece_end(platform, s);
    let n = piece_end(platform, s);
    let whole = s + "/"@ + then;
    assert(whole[s.len() as int] == '/');
    assert forall|i: int| 0 <= i < n implies !is_separator(platform, #[trigger] whole[i]) by {
        assert(whole[i] == s[i]);
    }
    if n < s.len() {
        assert(whole[n] == s[n]);
    }
    lemma_piece_end_at(platform, whole, n);
    let rest = whole.skip(n + 1);
    if n < s.len() {
        let t = s.skip(n + 1);
        lemma_pieces_of_joined(platform, t, then);
        assert(rest =~= t + "/"@ + then);
        assert(whole.take(n) =~= s.take(n));
        assert(pieces(platform, whole) =~= seq![s.take(n)] + (pieces(platform, t) + pieces(
            platform,
            then,
        )));
        assert(pieces(platform, whole) =~= pieces(platform, s) + pieces(platform, then));
    } else {
        assert(rest =~= then);
        assert(whole.take(n) =~= s);
        assert(pieces(platform, s) =~= seq![s]);
        assert(pieces(platform, whole) =~= pieces(platform, s) + pieces(platform, then));
    }
}

proof fn lemma_pieces_of_join(platform: Platform, path: Seq<Seq<char>>)
    requires
        path.len() > 0,
        forall|k: int| 0 <= k < path.len() ==> is_entry_name(platform, #[trigger] path[k]),
    ensures
        pieces(platform, text::join(path, "/"@)) == path,
        text::join(path, "/"@).len() >= path[0].len(),
        text::join(path, "/"@).take(path[0].len() as int) == path[0],
        text::join(path, "/"@).len() > path[0].len() ==> text::join(
            path,
            "/"@,
        )[path[0].len() as int] == '/',
    decreases path.len(),
{
    reveal_strlit("/");
    let whole = text::join(path, "/"@);
    assert(is_entry_name(platform, path[0]));
    if path.len() == 1 {
        lemma_piece_end_at(platform, whole, whole.len() as int);
        assert(pieces(platform, whole) =~= path);
        assert(whole.take(path[0].len() as int) =~= path[0]);
    } else {
        let init = path.drop_last();
        let front = text::join(init, "/"@);
        assert forall|k: int| 0 <= k < init.len() implies is_entry_name(
            platform,
            #[trigger] init[k],
        ) by {
            assert(init[k] == path[k]);
        }
        lemma_pieces_of_join(platform, init);
        assert(is_entry_name(platform, path.last()));
        lemma_pieces_of_joined(platform, front, path.last());
        lemma_piece_end_at(platform, path.last(), path.last().len() as int);
        assert(pieces(platform, path.last()) =~= seq![path.last()]);
        assert(init + seq![path.last()] =~= path);
        assert(whole.take(path[0].len() as int) =~= front.take(path[0].len() as int));
        if front.len() == path[0].len() {
            assert(whole[front.len() as int] == "/"@[0]);
        } else {
            assert(whole[path[0].len() as int] == front[path[0].len() as int]);
        }
    }
}

proof fn lemma_all_kept(s: Seq<Seq<char>>)
    requires
        forall|k: int| 0 <= k < s.len() ==> is_name(#[trigger] s[k]),
    ensures
        s.filter(|piece: Seq<char>| is_name(piece)) == s,
    decreases s.len(),
{
    reveal(Seq::filter);
    if s.len() > 0 {
        let init = s.drop_last();
        assert forall|k: int| 0 <= k < init.len() implies is_name(#[trigger] init[k]) by {
            assert(init[k] == s[k]);
        }
        lemma_all_kept(init);
        assert(is_name(s[s.len() - 1]));
        assert(init.push(s.last()) =~= s);
    }
}

/// The names of entries, with slashes between them, make a path that is accepted and leads back
/// along those names.
pub proof fn joined_names_lead_back(platform: Platform, path: Seq<Seq<char>>)
    requires
        path.len() > 0,
        forall|k: int| 0 <= k < path.len() ==> is_entry_name(platform, #[trigger] path[k]),
    ensures
        relative_names(platform, text::join(path, "/"@)) == Ok::<Seq<Seq<char>>, Seq<char>>(path),
{
    let whole = text::join(path, "/"@);
    lemma_pieces_of_join(platform, path);
    assert(is_entry_name(platform, path[0]));
    let first = whole.take(path[0].len() as int);
    assert(whole[0] == first[0]);
    assert(!is_separator(platform, path[0][0]));
    if path[0].len() > 1 {
        assert(whole[1] == first[1]);
    }
    assert(!path.contains(".."@)) by {
        assert forall|k: int| 0 <= k < path.len() implies #[trigger] path[k] != ".."@ by {
            assert(is_entry_name(platform, path[k]));
        }
    }
    assert forall|k: int| 0 <= k < path.len() implies is_name(#[trigger] path[k]) by {
        assert(is_entry_name(platform, path[k]));
    }
    lemma_all_kept(path);
}

/// Resolving in two steps, first `rel` and then `then`, is resolving the joined path: it is
/// accepted exactly where both are, and leads along the names of the one and then of the other.
/// An empty first step would make the joined path absolute, and a second step that begins with a
/// separator is absolute by itself only.
pub proof fn two_steps_resolve_as_one(platform: Platform, rel: Seq<char>, then: Seq<char>)
    requires
        rel.len() > 0,
        then.len() > 0 ==> !is_separator(platform, then[0]),
    ensures
        match (relative_names(platform, rel), relative_names(platform, then)) {
            (Ok(first), Ok(second)) => relative_names(platform, rel + "/"@ + then) == Ok::<
                Seq<Seq<char>>,
                Seq<char>,
            >(first + second),
            _ => relative_names(platform, rel + "/"@ + then) is Err,
        },
{
    reveal_strlit("/");
    let whole = rel + "/"@ + then;
    let a = pieces(platform, rel);
    let b = pieces(platform, then);
    let keep = |piece: Seq<char>| is_name(piece);
    lemma_pieces_of_joined(platform, rel, then);
    Seq::filter_distributes_over_add(a, b, keep);
    assert(whole[0] == rel[0]);
    assert(whole[1] == (if rel.len() > 1 {
        rel[1]
    } else {
        '/'
    }));
    assert(is_absolute(platform, whole) == is_absolute(platform, rel));
    assert((a + b).contains(".."@) <==> a.contains(".."@) || b.contains(".."@)) by {
        if a.contains(".."@) {
            let k = choose|k: int| 0 <= k < a.len() && a[k] == ".."@;
            assert((a + b)[k] == ".."@);
        }
        if b.contains(".."@) {
            let k = choose|k: int| 0 <= k < b.len() && b[k] == ".."@;
            assert((a + b)[a.len() + k] == ".."@);
        }
    }
    assert(any_names_drive(platform, a + b) <==> any_names_drive(platform, a) || any_names_drive(
        platform,
        b,
    )) by {
        if any_names_drive(platform, a) {
            let k = choose|k: int| 0 <= k < a.len() && names_drive(platform, #[trigger] a[k]);
            assert(names_drive(platform, (a + b)[k]));
        }
        if any_names_drive(platform, b) {
            let k = choose|k: int| 0 <= k < b.len() && names_drive(platform, #[trigger] b[k]);
            assert(names_drive(platform, (a + b)[a.len() + k]));
        }
        if any_names_drive(platform, a + b) {
            let k = choose|k: int|
                0 <= k < (a + b).len() && names_drive(platform, #[trigger] (a + b)[k]);
            if k < a.len() {
                assert(names_drive(platform, a[k]));
            } else {
                assert(names_drive(platform, b[k - a.len()]));
            }
        }
    }
    if is_absolute(platform, then) {
        lemma_drive_is_in_the_first_piece(platform, then);
    }
}

proof fn lemma_drive_is_in_the_first_piece(platform: Platform, s: Seq<char>)
    requires
        names_drive(platform, s),
    ensures
        any_names_drive(platform, pieces(platform, s)),
{
    lemma_piece_end(platform, s);
    let n = piece_end(platform, s);
    if n <= 1 {
        assert(is_separator(platform, s[n]));
    }
    assert(names_drive(platform, pieces(platform, s)[0]));
}

proof fn lemma_pieces_of_plain_join(platform: Platform, parts: Seq<Seq<char>>)
    requires
        parts.len() > 0,
        forall|k: int| 0 <= k < parts.len() ==> is_plain(platform, #[trigger] parts[k]),
    ensures
        pieces(platform, text::join(parts, "/"@)) == parts,
        text::join(parts, "/"@).len() >= parts[0].len(),
        text::join(parts, "/"@).take(parts[0].len() as int) == parts[0],
        text::join(parts, "/"@).len() > parts[0].len() ==> text::join(
            parts,
            "/"@,
        )[parts[0].len() as int] == '/',
    decreases parts.len(),
{
    reveal_strlit("/");
    let whole = text::join(parts, "/"@);
    assert(is_plain(platform, parts[0]));
    if parts.len() == 1 {
        lemma_piece_end_at(platform, whole, whole.len() as int);
        assert(pieces(platform, whole) =~= parts);
        assert(whole.take(parts[0].len() as int) =~= parts[0]);
    } else {
        let init = parts.drop_last();
        let front = text::join(init, "/"@);
        assert forall|k: int| 0 <= k < init.len() implies is_plain(
            platform,
            #[trigger] init[k],
        ) by {
            assert(init[k] == parts[k]);
        }
        lemma_pieces_of_plain_join(platform, init);
        assert(is_plain(platform, parts[parts.len() - 1]));
        lemma_pieces_of_joined(platform, front, parts.last());
        lemma_piece_end_at(platform, parts.last(), parts.last().len() as int);
        assert(pieces(platform, parts.last()) =~= seq![parts.last()]);
        assert(init + seq![parts.last()] =~= parts);
        assert(whole.take(parts[0].len() as int) =~= front.take(parts[0].len() as int));
        if front.len() == parts[0].len() {
            assert(whole[front.len() as int] == "/"@[0]);
        } else {
            assert(whole[parts[0].len() as int] == front[parts[0].len() as int]);
        }
    }
}

/// A path is read piece by piece: it is refused exactly where a piece leads up, and else leads
/// along its pieces, but for those that are empty or a single dot. Here the first piece is not
/// empty, as the path would begin with a slash, and no piece names a drive.
pub proof fn paths_are_read_piece_by_piece(platform: Platform, parts: Seq<Seq<char>>)
    requires
        parts.len() > 0,
        parts[0].len() > 0,
        forall|k: int, i: int|
            0 <= k < parts.len() && 0 <= i < parts[k].len() ==> #[trigger] parts[k][i] != '/' && (
            platform == Platform::Windows ==> parts[k][i] != '\\'),
        platform == Platform::Windows ==> forall|k: int|
            0 <= k < parts.len() && (#[trigger] parts[k]).len() > 1 ==> parts[k][1] != ':',
    ensures
        parts.contains(".."@) ==> relative_names(platform, text::join(parts, "/"@)) is Err,
        !parts.contains(".."@) ==> relative_names(platform, text::join(parts, "/"@)) == Ok::<
            Seq<Seq<char>>,
            Seq<char>,
        >(parts.filter(|piece: Seq<char>| piece.len() > 0 && piece != "."@)),
{
    let whole = text::join(parts, "/"@);
    assert forall|k: int| 0 <= k < parts.len() implies is_plain(platform, #[trigger] parts[k]) by {
        assert forall|i: int| 0 <= i < parts[k].len() implies !is_separator(
            platform,
            #[trigger] parts[k][i],
        ) by {}
    }
    lemma_pieces_of_plain_join(platform, parts);
    let first = whole.take(parts[0].len() as int);
    assert(whole[0] == first[0]);
    assert(parts[0][0] != '/');
    if parts[0].len() > 1 {
        assert(whole[1] == first[1]);
    }
    assert(!is_absolute(platform, whole));
    assert(!any_names_drive(platform, parts));
    assert((|piece: Seq<char>| is_name(piece)) =~= (|piece: Seq<char>|
        piece.len() > 0 && piece != "."@));
}

/// A path that begins with a slash is refused, whatever follows, and on Windows one that begins
/// with a backslash or a drive.
pub proof fn absolute_paths_are_refused(platform: Platform, letter: char, rest: Seq<char>)
    requires
        ('a' <= letter && letter <= 'z') || ('A' <= letter && letter <= 'Z'),
    ensures
        relative_names(platform, seq!['/'] + rest) is Err,
        relative_names(Platform::Windows, seq!['\\'] + rest) is Err,
        relative_names(Platform::Windows, seq![letter, ':'] + rest) is Err,
{
    assert((seq!['/'] + rest)[0] == '/');
    assert((seq!['\\'] + rest)[0] == '\\');
    assert((seq![letter, ':'] + rest)[0] == letter);
    assert((seq![letter, ':'] + rest)[1] == ':');
}

/// On Windows a backslash separates just as a slash does.
pub proof fn backslashes_separate_on_windows(rel: Seq<char>)
    ensures
        relative_names(Platform::Windows, text::replace(rel, '\\', '/')) == relative_names(
            Platform::Windows,
            rel,
        ),
{
    let turned = text::replace(rel, '\\', '/');
    lemma_turned_pieces(rel);
    if rel.len() > 0 {
        assert(turned[0] == (if rel[0] == '\\' {
            '/'
        } else {
            rel[0]
        }));
    }
    if rel.len() > 1 {
        assert(turned[1] == (if rel[1] == '\\' {
            '/'
        } else {
            rel[1]
        }));
    }
}

proof fn lemma_turned_pieces(s: Seq<char>)
    ensures
        pieces(Platform::Windows, text::replace(s, '\\', '/')) == pieces(Platform::Windows, s),
    decreases s.len(),
{
    let platform = Platform::Windows;
    let turned = text::replace(s, '\\', '/');
    lemma_piece_end(platform, s);
    let n = piece_end(platform, s);
    assert(forall|i: int|
        0 <= i < s.len() ==> #[trigger] turned[i] == (if s[i] == '\\' {
            '/'
        } else {
            s[i]
        }));
    assert forall|i: int| 0 <= i < n implies !is_separator(platform, #[trigger] turned[i]) by {
        assert(!is_separator(platform, s[i]));
    }
    lemma_piece_end_at(platform, turned, n);
    if n < s.len() {
        let rest = s.skip(n + 1);
        lemma_turned_pieces(rest);
        assert(turned.skip(n + 1) =~= text::replace(rest, '\\', '/'));
        assert(turned.take(n) =~= s.take(n)) by {
            assert forall|i: int| 0 <= i < n implies turned[i] == s[i] by {
                assert(!is_separator(platform, s[i]));
            }
        }
        assert(pieces(platform, turned) =~= pieces(platform, s));
    } else {
        assert(turned =~= s) by {
            assert forall|i: int| 0 <= i < s.len() implies turned[i] == s[i] by {
                assert(!is_separator(platform, s[i]));
            }
        }
    }
}

} // verus!
