//! Text as sequences of characters: white space, lines, prefixes, searching and joining.

use vstd::prelude::*;

verus! {

/// `String::push` appends one character at the end of the string.
pub assume_specification[ String::push ](s: &mut String, c: char)
    ensures
        final(s)@ == old(s)@.push(c),
;

/// The characters with the Unicode property `White_Space`.
pub open spec fn is_white_space(c: char) -> bool {
    let u = c as u32;
    ||| 0x09 <= u <= 0x0d
    ||| u == 0x20
    ||| u == 0x85
    ||| u == 0xa0
    ||| u == 0x1680
    ||| 0x2000 <= u <= 0x200a
    ||| u == 0x2028
    ||| u == 0x2029
    ||| u == 0x202f
    ||| u == 0x205f
    ||| u == 0x3000
}

/// Whether `c` is white space.
pub fn white_space(c: char) -> (b: bool)
    ensures
        b == is_white_space(c),
{
    let u: u32 = c as u32;
    (0x09 <= u && u <= 0x0d) || u == 0x20 || u == 0x85 || u == 0xa0 || u == 0x1680 || (0x2000 <= u
        && u <= 0x200a) || u == 0x2028 || u == 0x2029 || u == 0x202f || u == 0x205f || u == 0x3000
}

/// The characters of `s`, one by one.
pub fn chars_of(s: &str) -> (v: Vec<char>)
    ensures
        v@ == s@,
{
    let mut v: Vec<char> = Vec::new();
    for c in it: s.chars()
        invariant
            it.seq() == s@,
            v@ == s@.take(it.index()),
    {
        v.push(c);
        assert(v@ =~= s@.take(it.index() + 1));
    }
    assert(s@.take(s@.len() as int) =~= s@);
    v
}

/// The string of the characters `v[lo..hi]`.
pub fn text_of(v: &Vec<char>, lo: usize, hi: usize) -> (s: String)
    requires
        lo <= hi <= v@.len(),
    ensures
        s@ == v@.subrange(lo as int, hi as int),
{
    let mut s: String = String::new();
    let mut i: usize = lo;
    while i < hi
        invariant
            lo <= i <= hi <= v@.len(),
            s@ == v@.subrange(lo as int, i as int),
        decreases hi - i,
    {
        s.push(v[i]);
        i = i + 1;
        assert(s@ =~= v@.subrange(lo as int, i as int));
    }
    s
}

/// `s` without its leading white space.
pub open spec fn trim_start(s: Seq<char>) -> Seq<char>
    decreases s.len(),
{
    if s.len() > 0 && is_white_space(s[0]) {
        trim_start(s.drop_first())
    } else {
        s
    }
}

/// `s` without its trailing white space.
pub open spec fn trim_end(s: Seq<char>) -> Seq<char>
    decreases s.len(),
{
    if s.len() > 0 && is_white_space(s.last()) {
        trim_end(s.drop_last())
    } else {
        s
    }
}

/// `s` without its leading and trailing white space.
pub open spec fn trim(s: Seq<char>) -> Seq<char> {
    trim_end(trim_start(s))
}

/// The position of the first character of `v` at or after `from` that is no white space.
fn skip_white_space(v: &Vec<char>, from: usize) -> (i: usize)
    requires
        from <= v@.len(),
    ensures
        from <= i <= v@.len(),
        v@.subrange(i as int, v@.len() as int) == trim_start(
            v@.subrange(from as int, v@.len() as int),
        ),
{
    let mut i: usize = from;
    while i < v.len() && white_space(v[i])
        invariant
            from <= i <= v@.len(),
            trim_start(v@.subrange(i as int, v@.len() as int)) == trim_start(
                v@.subrange(from as int, v@.len() as int),
            ),
        decreases v@.len() - i,
    {
        assert(v@.subrange(i as int, v@.len() as int).drop_first() =~= v@.subrange(
            i + 1,
            v@.len() as int,
        ));
        i = i + 1;
    }
    i
}

/// The end of what is left of `v[lo..hi]` without its trailing white space.
fn drop_white_space(v: &Vec<char>, lo: usize, hi: usize) -> (j: usize)
    requires
        lo <= hi <= v@.len(),
    ensures
        lo <= j <= hi,
        v@.subrange(lo as int, j as int) == trim_end(v@.subrange(lo as int, hi as int)),
{
    let mut j: usize = hi;
    while j > lo && white_space(v[j - 1])
        invariant
            lo <= j <= hi <= v@.len(),
            trim_end(v@.subrange(lo as int, j as int)) == trim_end(
                v@.subrange(lo as int, hi as int),
            ),
        decreases j,
    {
        assert(v@.subrange(lo as int, j as int).drop_last() =~= v@.subrange(lo as int, j - 1));
        j = j - 1;
    }
    j
}

/// `s` without its leading white space.
pub fn trimmed_start(s: &str) -> (r: String)
    ensures
        r@ == trim_start(s@),
{
    let v: Vec<char> = chars_of(s);
    let i: usize = skip_white_space(&v, 0);
    assert(v@.subrange(0, v@.len() as int) =~= s@);
    text_of(&v, i, v.len())
}

/// `s` without its leading and trailing white space.
pub fn trimmed(s: &str) -> (r: String)
    ensures
        r@ == trim(s@),
{
    let v: Vec<char> = chars_of(s);
    let i: usize = skip_white_space(&v, 0);
    assert(v@.subrange(0, v@.len() as int) =~= s@);
    let j: usize = drop_white_space(&v, i, v.len());
    text_of(&v, i, j)
}

/// A text that begins and ends without white space is its own trimmed form.
pub proof fn lemma_trim_of_trimmed(s: Seq<char>)
    requires
        s.len() > 0 ==> !is_white_space(s[0]) && !is_white_space(s.last()),
    ensures
        trim_start(s) == s,
        trim(s) == s,
{
}

/// Trimming leaves a text that begins and ends without white space, and no longer than it was.
pub proof fn lemma_trim(s: Seq<char>)
    ensures
        trim(s).len() > 0 ==> !is_white_space(trim(s)[0]) && !is_white_space(trim(s).last()),
        trim(s).len() <= s.len(),
{
    lemma_trim_start(s);
    lemma_trim_end(trim_start(s));
}

proof fn lemma_trim_start(s: Seq<char>)
    ensures
        trim_start(s).len() > 0 ==> !is_white_space(trim_start(s)[0]),
        trim_start(s).len() <= s.len(),
    decreases s.len(),
{
    if s.len() > 0 && is_white_space(s[0]) {
        lemma_trim_start(s.drop_first());
    }
}

proof fn lemma_trim_end(s: Seq<char>)
    ensures
        trim_end(s).len() > 0 ==> !is_white_space(trim_end(s).last()) && trim_end(s)[0] == s[0],
        trim_end(s).len() <= s.len(),
    decreases s.len(),
{
    if s.len() > 0 && is_white_space(s.last()) {
        lemma_trim_end(s.drop_last());
    }
}

/// Trimming a trimmed text changes nothing.
pub proof fn trim_of_trim(s: Seq<char>)
    ensures
        trim(trim(s)) == trim(s),
{
    lemma_trim(s);
    lemma_trim_of_trimmed(trim(s));
}

/// `s` begins with `prefix`.
pub open spec fn has_prefix(s: Seq<char>, prefix: Seq<char>) -> bool {
    prefix.len() <= s.len() && s.take(prefix.len() as int) == prefix
}

/// What follows `prefix` in `s`, if `s` begins with it.
pub open spec fn after_prefix(s: Seq<char>, prefix: Seq<char>) -> Option<Seq<char>> {
    if has_prefix(s, prefix) {
        Some(s.skip(prefix.len() as int))
    } else {
        None
    }
}

/// Whether `v[at..]` begins with `p`.
fn matches_at(v: &Vec<char>, at: usize, p: &Vec<char>) -> (b: bool)
    requires
        at <= v@.len(),
    ensures
        b == has_prefix(v@.skip(at as int), p@),
{
    if p.len() > v.len() - at {
        return false;
    }
    let n: usize = v.len();
    let mut k: usize = 0;
    while k < p.len()
        invariant
            n == v@.len(),
            at + p@.len() <= n,
            k <= p@.len(),
            forall|j: int| 0 <= j < k ==> v@[at + j] == p@[j],
        decreases p@.len() - k,
    {
        if v[at + k] != p[k] {
            assert(v@.skip(at as int).take(p@.len() as int)[k as int] != p@[k as int]);
            return false;
        }
        k = k + 1;
    }
    assert(v@.skip(at as int).take(p@.len() as int) =~= p@);
    true
}

/// What follows `prefix` in `s`, if `s` begins with it.
pub fn strip_prefix(s: &str, prefix: &str) -> (r: Option<String>)
    ensures
        match r {
            Some(rest) => after_prefix(s@, prefix@) == Some(rest@),
            None => after_prefix(s@, prefix@) is None,
        },
{
    let v: Vec<char> = chars_of(s);
    let p: Vec<char> = chars_of(prefix);
    assert(v@.skip(0) =~= s@);
    if matches_at(&v, 0, &p) {
        let rest: String = text_of(&v, p.len(), v.len());
        assert(rest@ =~= s@.skip(p@.len() as int));
        Some(rest)
    } else {
        None
    }
}

/// `part` occurs somewhere in `s`.
pub open spec fn occurs(s: Seq<char>, part: Seq<char>) -> bool {
    exists|i: int| 0 <= i <= s.len() && has_prefix(#[trigger] s.skip(i), part)
}

/// Whether `part` occurs somewhere in `s`.
pub fn contains(s: &str, part: &str) -> (b: bool)
    ensures
        b == occurs(s@, part@),
{
    let v: Vec<char> = chars_of(s);
    let p: Vec<char> = chars_of(part);
    let mut i: usize = 0;
    loop
        invariant
            v@ == s@,
            p@ == part@,
            i <= v@.len(),
            forall|j: int| 0 <= j < i ==> !has_prefix(#[trigger] s@.skip(j), part@),
        decreases v@.len() - i,
    {
        if matches_at(&v, i, &p) {
            return true;
        }
        if i == v.len() {
            return false;
        }
        i = i + 1;
    }
}

/// The texts that the strings of `v` hold.
pub open spec fn texts(v: Seq<String>) -> Seq<Seq<char>> {
    v.map_values(|s: String| s@)
}

/// The pairs of texts that the pairs of strings of `v` hold.
pub open spec fn text_pairs(v: Seq<(String, String)>) -> Seq<(Seq<char>, Seq<char>)> {
    v.map_values(|p: (String, String)| (p.0@, p.1@))
}

/// The position of the first `c` in `s`, or the length of `s` where there is none.
pub open spec fn position_of(s: Seq<char>, c: char) -> int
    decreases s.len(),
{
    if s.len() == 0 || s[0] == c {
        0
    } else {
        1 + position_of(s.drop_first(), c)
    }
}

/// `s` without one carriage return at its end.
pub open spec fn without_return(s: Seq<char>) -> Seq<char> {
    if s.len() > 0 && s.last() == '\r' {
        s.drop_last()
    } else {
        s
    }
}

/// The lines of `s`. A line ends at a line feed, which may follow a carriage return; the
/// terminators belong to no line, and the last line needs none.
pub open spec fn lines(s: Seq<char>) -> Seq<Seq<char>>
    decreases s.len(),
    via lines_decreases
{
    let n = position_of(s, '\n');
    if s.len() == 0 {
        seq![]
    } else if n >= s.len() {
        seq![s]
    } else {
        seq![without_return(s.take(n))] + lines(s.skip(n + 1))
    }
}

#[via_fn]
proof fn lines_decreases(s: Seq<char>) {
    lemma_position_of(s, '\n');
}

/// The first `c` lies where `position_of` says.
pub proof fn lemma_position_of(s: Seq<char>, c: char)
    ensures
        0 <= position_of(s, c) <= s.len(),
        forall|i: int| 0 <= i < position_of(s, c) ==> s[i] != c,
        position_of(s, c) < s.len() ==> s[position_of(s, c)] == c,
    decreases s.len(),
{
    if s.len() > 0 && s[0] != c {
        let t = s.drop_first();
        lemma_position_of(t, c);
        assert forall|i: int| 0 <= i < position_of(s, c) implies s[i] != c by {
            if i > 0 {
                assert(t[i - 1] == s[i]);
            }
        }
        if position_of(s, c) < s.len() {
            assert(t[position_of(t, c)] == s[position_of(s, c)]);
        }
    }
}

/// `position_of` is the only position with its properties.
pub proof fn lemma_position_is(s: Seq<char>, c: char, n: int)
    requires
        0 <= n <= s.len(),
        forall|i: int| 0 <= i < n ==> s[i] != c,
        n < s.len() ==> s[n] == c,
    ensures
        position_of(s, c) == n,
{
    lemma_position_of(s, c);
    let m = position_of(s, c);
    if m < n {
        assert(s[m] != c);
    } else if n < m {
        assert(s[n] != c);
    }
}

/// The first line of a text and the lines of the rest are the lines of the whole.
pub proof fn lines_behind_a_line(line: Seq<char>, rest: Seq<char>)
    requires
        forall|i: int| 0 <= i < line.len() ==> line[i] != '\n',
    ensures
        lines(line + seq!['\n'] + rest) == seq![without_return(line)] + lines(rest),
{
    let s = line + seq!['\n'] + rest;
    lemma_position_is(s, '\n', line.len() as int);
    assert(s.take(line.len() as int) =~= line);
    assert(s.skip(line.len() as int + 1) =~= rest);
}

/// The texts of `s`, each behind which a line feed comes.
pub open spec fn terminated(s: Seq<Seq<char>>) -> Seq<char>
    decreases s.len(),
{
    if s.len() == 0 {
        seq![]
    } else {
        s[0] + seq!['\n'] + terminated(s.drop_first())
    }
}

/// `line` can stand as one line of a text: it holds no line feed and ends with no carriage return.
pub open spec fn is_line(line: Seq<char>) -> bool {
    &&& forall|i: int| 0 <= i < line.len() ==> #[trigger] line[i] != '\n'
    &&& line.len() > 0 ==> line.last() != '\r'
}

/// Lines that are put one after the other, each behind which a line feed comes, are read back, and
/// after them the lines of the rest.
pub proof fn lines_are_read_back(s: Seq<Seq<char>>, rest: Seq<char>)
    requires
        forall|i: int| 0 <= i < s.len() ==> is_line(#[trigger] s[i]),
    ensures
        lines(terminated(s) + rest) == s + lines(rest),
    decreases s.len(),
{
    if s.len() == 0 {
        assert(terminated(s) + rest =~= rest);
        assert(s + lines(rest) =~= lines(rest));
    } else {
        let t = s.drop_first();
        assert forall|i: int| 0 <= i < t.len() implies is_line(#[trigger] t[i]) by {
            assert(t[i] == s[i + 1]);
        }
        lines_are_read_back(t, rest);
        assert(is_line(s[0]));
        lines_behind_a_line(s[0], terminated(t) + rest);
        assert(terminated(s) + rest =~= s[0] + seq!['\n'] + (terminated(t) + rest));
        assert(s + lines(rest) =~= seq![s[0]] + (t + lines(rest)));
    }
}

/// The lines of a text that is cut behind a line feed are those of its parts.
pub proof fn lines_of_parts(a: Seq<char>, b: Seq<char>)
    requires
        a.len() > 0 ==> a.last() == '\n',
    ensures
        lines(a + b) == lines(a) + lines(b),
    decreases a.len(),
{
    if a.len() == 0 {
        assert(a + b =~= b);
        assert(lines(a) + lines(b) =~= lines(b));
    } else {
        lemma_position_of(a, '\n');
        let n = position_of(a, '\n');
        assert(a[a.len() - 1] == '\n');
        let line = a.take(n);
        let rest = a.skip(n + 1);
        assert(rest.len() > 0 ==> rest.last() == a.last());
        lines_of_parts(rest, b);
        lines_behind_a_line(line, rest);
        lines_behind_a_line(line, rest + b);
        assert(a =~= line + seq!['\n'] + rest);
        assert(a + b =~= line + seq!['\n'] + (rest + b));
        assert(lines(a + b) =~= lines(a) + lines(b));
    }
}

/// A line of a text holds no line feed.
pub proof fn lemma_lines_hold_no_line_feed(s: Seq<char>)
    ensures
        forall|k: int, i: int|
            0 <= k < lines(s).len() && 0 <= i < lines(s)[k].len() ==> #[trigger] lines(s)[k][i]
                != '\n',
    decreases s.len(),
{
    let n = position_of(s, '\n');
    lemma_position_of(s, '\n');
    if 0 < s.len() && n < s.len() {
        let rest = s.skip(n + 1);
        lemma_lines_hold_no_line_feed(rest);
        assert forall|k: int, i: int|
            0 <= k < lines(s).len() && 0 <= i < lines(s)[k].len() implies #[trigger] lines(s)[k][i]
            != '\n' by {
            if k == 0 {
                assert(lines(s)[0] == without_return(s.take(n)));
                assert(lines(s)[0][i] == s[i]);
            } else {
                assert(lines(s)[k] == lines(rest)[k - 1]);
            }
        }
    }
}

/// The lines of `s`, as [`lines`] defines them.
pub fn lines_of(s: &str) -> (r: Vec<String>)
    ensures
        texts(r@) == lines(s@),
{
    let v: Vec<char> = chars_of(s);
    let n: usize = v.len();
    let mut r: Vec<String> = Vec::new();
    let mut start: usize = 0;
    let mut i: usize = 0;
    assert(v@.skip(0) =~= v@);
    assert(texts(r@) =~= seq![]);
    assert(texts(r@) + lines(v@) =~= lines(v@));
    while i < n
        invariant
            n == v@.len(),
            v@ == s@,
            start <= i <= n,
            forall|k: int| start <= k < i ==> v@[k] != '\n',
            texts(r@) + lines(v@.skip(start as int)) == lines(s@),
        decreases n - i,
    {
        if v[i] == '\n' {
            let ghost rest = v@.skip(start as int);
            let end: usize = if i > start && v[i - 1] == '\r' {
                i - 1
            } else {
                i
            };
            let line: String = text_of(&v, start, end);
            proof {
                lemma_position_is(rest, '\n', i - start);
                assert(line@ =~= without_return(rest.take(i - start)));
                assert(rest.skip(i - start + 1) =~= v@.skip(i + 1));
            }
            let ghost before = r@;
            r.push(line);
            assert(texts(r@) =~= texts(before).push(line@));
            assert(texts(r@) + lines(v@.skip(i + 1)) =~= texts(before) + lines(rest));
            start = i + 1;
        }
        i = i + 1;
    }
    let ghost rest = v@.skip(start as int);
    proof {
        lemma_position_is(rest, '\n', n - start);
    }
    if start < n {
        let ghost before = r@;
        let line: String = text_of(&v, start, n);
        assert(line@ =~= rest);
        r.push(line);
        assert(texts(r@) =~= texts(before) + lines(rest));
    } else {
        assert(texts(r@) =~= texts(r@) + lines(rest));
    }
    r
}

/// `parts` one after the other, with `sep` between each two.
pub open spec fn join(parts: Seq<Seq<char>>, sep: Seq<char>) -> Seq<char>
    decreases parts.len(),
{
    if parts.len() == 0 {
        seq![]
    } else if parts.len() == 1 {
        parts[0]
    } else {
        join(parts.drop_last(), sep) + sep + parts.last()
    }
}

/// `parts[lo..hi]` one after the other, with `sep` between each two.
pub fn joined(parts: &Vec<String>, lo: usize, hi: usize, sep: &str) -> (r: String)
    requires
        lo <= hi <= parts@.len(),
    ensures
        r@ == join(texts(parts@).subrange(lo as int, hi as int), sep@),
{
    let mut r: String = String::new();
    let mut i: usize = lo;
    let ghost all = texts(parts@);
    while i < hi
        invariant
            lo <= i <= hi <= parts@.len(),
            all == texts(parts@),
            r@ == join(all.subrange(lo as int, i as int), sep@),
        decreases hi - i,
    {
        if i > lo {
            r.append(sep);
        }
        r.append(parts[i].as_str());
        proof {
            let next = all.subrange(lo as int, i + 1);
            assert(next.drop_last() =~= all.subrange(lo as int, i as int));
            assert(next.last() == parts@[i as int]@);
            if i == lo {
                assert(r@ =~= next[0]);
            }
        }
        i = i + 1;
    }
    r
}

/// What stands before and behind the first `c` of `s`, if there is one.
pub open spec fn split_at_first(s: Seq<char>, c: char) -> Option<(Seq<char>, Seq<char>)> {
    let n = position_of(s, c);
    if n < s.len() {
        Some((s.take(n), s.skip(n + 1)))
    } else {
        None
    }
}

/// What stands before and behind the first `c` of `s`, if there is one.
pub fn split_once(s: &str, c: char) -> (r: Option<(String, String)>)
    ensures
        match r {
            Some(parts) => split_at_first(s@, c) == Some((parts.0@, parts.1@)),
            None => split_at_first(s@, c) is None,
        },
{
    let v: Vec<char> = chars_of(s);
    let mut i: usize = 0;
    while i < v.len() && v[i] != c
        invariant
            v@ == s@,
            i <= v@.len(),
            forall|k: int| 0 <= k < i ==> s@[k] != c,
        decreases v@.len() - i,
    {
        i = i + 1;
    }
    proof {
        lemma_position_is(s@, c, i as int);
    }
    if i < v.len() {
        let before: String = text_of(&v, 0, i);
        let behind: String = text_of(&v, i + 1, v.len());
        assert(before@ =~= s@.take(i as int));
        assert(behind@ =~= s@.skip(i + 1));
        Some((before, behind))
    } else {
        None
    }
}

/// `s` with every `from` replaced by `to`.
pub open spec fn replace(s: Seq<char>, from: char, to: char) -> Seq<char> {
    s.map_values(|c: char| if c == from { to } else { c })
}

/// `s` with every `from` replaced by `to`.
pub fn replaced(s: &str, from: char, to: char) -> (r: String)
    ensures
        r@ == replace(s@, from, to),
{
    let v: Vec<char> = chars_of(s);
    let mut r: String = String::new();
    let mut i: usize = 0;
    while i < v.len()
        invariant
            v@ == s@,
            i <= v@.len(),
            r@ == replace(s@.take(i as int), from, to),
        decreases v@.len() - i,
    {
        let c: char = v[i];
        r.push(if c == from { to } else { c });
        i = i + 1;
        assert(r@ =~= replace(s@.take(i as int), from, to));
    }
    assert(s@.take(v@.len() as int) =~= s@);
    r
}

/// Whether two texts are equal.
pub fn same_text(a: &str, b: &str) -> (r: bool)
    ensures
        r == (a@ == b@),
{
    a.to_owned() == b.to_owned()
}

/// `s` with the letters `A` to `Z` turned into `a` to `z`.
pub open spec fn ascii_lowercase(s: Seq<char>) -> Seq<char> {
    s.map_values(|c: char| if 'A' <= c && c <= 'Z' { (c as u32 + 32) as char } else { c })
}

/// The lower case of a text, by the Unicode mapping of `str::to_lowercase`.
pub uninterp spec fn lowercase(s: Seq<char>) -> Seq<char>;

/// `str::to_lowercase`. Its result depends on the text alone and is called [`lowercase`]; of a
/// text of ASCII characters it is the ASCII lower case. The mapping of other characters is left
/// to Unicode.
#[verifier::external_body]
pub(crate) fn lowercased(s: &str) -> (r: String)
    ensures
        r@ == lowercase(s@),
        vstd::utf8::is_ascii_chars(s@) ==> r@ == ascii_lowercase(s@),
{
    s.to_lowercase()
}

/// The text of bytes that may be broken UTF-8, by `String::from_utf8_lossy`.
pub uninterp spec fn utf8_lossy(bytes: Seq<u8>) -> Seq<char>;

/// `String::from_utf8_lossy`. Its result depends on the bytes alone and is called [`utf8_lossy`];
/// bytes that are valid UTF-8 give the text they encode. Where the replacement characters go
/// otherwise is left to it.
#[verifier::external_body]
pub(crate) fn lossy_text(bytes: &[u8]) -> (s: String)
    ensures
        s@ == utf8_lossy(bytes@),
        vstd::utf8::valid_utf8(bytes@) ==> s@ == vstd::utf8::decode_utf8(bytes@),
{
    String::from_utf8_lossy(bytes).into_owned()
}

/// `s` is white space alone.
pub open spec fn is_blank(s: Seq<char>) -> bool {
    forall|i: int| 0 <= i < s.len() ==> is_white_space(#[trigger] s[i])
}

/// White space in front of a text that does not begin with any is what trimming its start takes
/// off, all of it and nothing else.
pub proof fn trimming_the_start_takes_off_white_space(before: Seq<char>, s: Seq<char>)
    requires
        is_blank(before),
        s.len() > 0 ==> !is_white_space(s[0]),
    ensures
        trim_start(before + s) == s,
    decreases before.len(),
{
    if before.len() == 0 {
        assert(before + s =~= s);
    } else {
        let rest = before.drop_first();
        assert forall|i: int| 0 <= i < rest.len() implies is_white_space(#[trigger] rest[i]) by {
            assert(rest[i] == before[i + 1]);
        }
        trimming_the_start_takes_off_white_space(rest, s);
        assert(is_white_space((before + s)[0]));
        assert((before + s).drop_first() =~= rest + s);
    }
}

proof fn lemma_trim_end_takes_off(s: Seq<char>, behind: Seq<char>)
    requires
        is_blank(behind),
        s.len() > 0 ==> !is_white_space(s.last()),
    ensures
        trim_end(s + behind) == s,
    decreases behind.len(),
{
    if behind.len() == 0 {
        assert(s + behind =~= s);
    } else {
        let rest = behind.drop_last();
        assert forall|i: int| 0 <= i < rest.len() implies is_white_space(#[trigger] rest[i]) by {
            assert(rest[i] == behind[i]);
        }
        lemma_trim_end_takes_off(s, rest);
        assert((s + behind).last() == behind[behind.len() - 1]);
        assert((s + behind).drop_last() =~= s + rest);
    }
}

/// White space around a text that neither begins nor ends with any is what trimming takes off, all
/// of it and nothing else.
pub proof fn trimming_takes_off_white_space(
    before: Seq<char>,
    s: Seq<char>,
    behind: Seq<char>,
)
    requires
        is_blank(before),
        is_blank(behind),
        s.len() > 0 ==> !is_white_space(s[0]) && !is_white_space(s.last()),
    ensures
        trim(before + s + behind) == s,
{
    if s.len() == 0 {
        let all = before + behind;
        assert(before + s + behind =~= all + s);
        assert forall|i: int| 0 <= i < all.len() implies is_white_space(#[trigger] all[i]) by {
            if i < before.len() {
                assert(all[i] == before[i]);
            } else {
                assert(all[i] == behind[i - before.len()]);
            }
        }
        trimming_the_start_takes_off_white_space(all, s);
        lemma_trim_end_takes_off(s, seq![]);
        assert(s + seq![] =~= s);
    } else {
        assert(before + s + behind =~= before + (s + behind));
        assert((s + behind)[0] == s[0]);
        trimming_the_start_takes_off_white_space(before, s + behind);
        lemma_trim_end_takes_off(s, behind);
    }
}

/// A part occurs in a text exactly where the text is something, the part, and something more.
pub proof fn occurring_parts_stand_in_the_text(s: Seq<char>, part: Seq<char>)
    ensures
        occurs(s, part) <==> exists|before: Seq<char>, behind: Seq<char>|
            s == #[trigger] (before + part + behind),
{
    if occurs(s, part) {
        let i = choose|i: int| 0 <= i <= s.len() && has_prefix(#[trigger] s.skip(i), part);
        let behind = s.skip(i).skip(part.len() as int);
        assert(s.skip(i) =~= part + behind) by {
            assert(s.skip(i) =~= s.skip(i).take(part.len() as int) + behind);
        }
        assert(s =~= s.take(i) + s.skip(i));
        assert(s =~= s.take(i) + part + behind);
    }
    if exists|before: Seq<char>, behind: Seq<char>| s == #[trigger] (before + part + behind) {
        let (before, behind) = choose|before: Seq<char>, behind: Seq<char>|
            s == #[trigger] (before + part + behind);
        let n = before.len() as int;
        assert(s.skip(n).take(part.len() as int) =~= part);
        assert(has_prefix(s.skip(n), part));
    }
}

/// A part that occurs in a text occurs in every text that holds it.
pub proof fn parts_occur_in_longer_texts(
    before: Seq<char>,
    s: Seq<char>,
    behind: Seq<char>,
    part: Seq<char>,
)
    requires
        occurs(s, part),
    ensures
        occurs(before + s + behind, part),
{
    occurring_parts_stand_in_the_text(s, part);
    let (a, b) = choose|a: Seq<char>, b: Seq<char>| s == #[trigger] (a + part + b);
    let whole = before + s + behind;
    assert(whole =~= (before + a) + part + (b + behind));
    occurring_parts_stand_in_the_text(whole, part);
}

/// A text is cut at its first separator: what stands before it holds none, and what stands behind
/// it may hold more.
pub proof fn texts_are_cut_at_the_first(before: Seq<char>, c: char, behind: Seq<char>)
    requires
        forall|i: int| 0 <= i < before.len() ==> #[trigger] before[i] != c,
    ensures
        split_at_first(before + seq![c] + behind, c) == Some((before, behind)),
        split_at_first(before, c) is None,
{
    let s = before + seq![c] + behind;
    let n = before.len() as int;
    lemma_position_is(s, c, n);
    lemma_position_is(before, c, n);
    assert(s.take(n) =~= before);
    assert(s.skip(n + 1) =~= behind);
}

/// Lines that are joined by line feeds are read back, where the last one is not empty.
pub proof fn joined_lines_are_read_back(s: Seq<Seq<char>>)
    requires
        s.len() > 0 ==> s.last().len() > 0,
        forall|i: int| 0 <= i < s.len() ==> is_line(#[trigger] s[i]),
    ensures
        lines(join(s, "\n"@)) == s,
{
    reveal_strlit("\n");
    if s.len() > 0 {
        let init = s.drop_last();
        let last = s.last();
        assert forall|i: int| 0 <= i < init.len() implies is_line(#[trigger] init[i]) by {
            assert(init[i] == s[i]);
        }
        lemma_join_is_terminated(s);
        lines_are_read_back(init, last);
        assert(is_line(s[s.len() - 1]));
        lemma_position_is(last, '\n', last.len() as int);
        assert(lines(last) =~= seq![last]);
        assert(init + seq![last] =~= s);
    }
}

proof fn lemma_terminated_push(s: Seq<Seq<char>>, line: Seq<char>)
    ensures
        terminated(s.push(line)) == terminated(s) + line + seq!['\n'],
    decreases s.len(),
{
    if s.len() == 0 {
        assert(s.push(line).drop_first() =~= s);
        assert(terminated(s.push(line)) =~= line + seq!['\n'] + terminated(s));
        assert(terminated(s.push(line)) =~= terminated(s) + line + seq!['\n']);
    } else {
        lemma_terminated_push(s.drop_first(), line);
        assert(s.push(line).drop_first() =~= s.drop_first().push(line));
        assert(s.push(line)[0] == s[0]);
        assert(terminated(s.push(line)) =~= terminated(s) + line + seq!['\n']);
    }
}

proof fn lemma_join_is_terminated(s: Seq<Seq<char>>)
    requires
        s.len() > 0,
    ensures
        join(s, "\n"@) == terminated(s.drop_last()) + s.last(),
    decreases s.len(),
{
    reveal_strlit("\n");
    let init = s.drop_last();
    if init.len() == 0 {
        assert(terminated(init) + s.last() =~= s[0]);
    } else {
        lemma_join_is_terminated(init);
        lemma_terminated_push(init.drop_last(), init.last());
        assert(init.drop_last().push(init.last()) =~= init);
        assert("\n"@ =~= seq!['\n']);
        assert(join(s, "\n"@) =~= terminated(init) + s.last());
    }
}

/// A text that holds more than white space is not trimmed away.
pub proof fn lemma_trim_keeps_what_is_no_white_space(s: Seq<char>, i: int)
    requires
        0 <= i < s.len(),
        !is_white_space(s[i]),
    ensures
        trim(s).len() > 0,
{
    lemma_trim_start_keeps(s, i);
    let t = trim_start(s);
    lemma_trim_end_keeps(t, i - (s.len() - t.len()));
}

proof fn lemma_trim_start_keeps(s: Seq<char>, i: int)
    requires
        0 <= i < s.len(),
        !is_white_space(s[i]),
    ensures
        s.len() - trim_start(s).len() <= i,
        trim_start(s).len() <= s.len(),
        trim_start(s) == s.skip(s.len() - trim_start(s).len()),
    decreases s.len(),
{
    if is_white_space(s[0]) {
        let t = s.drop_first();
        lemma_trim_start_keeps(t, i - 1);
        assert(t.skip(t.len() - trim_start(t).len()) =~= s.skip(s.len() - trim_start(t).len()));
    } else {
        assert(s.skip(0) =~= s);
    }
}

proof fn lemma_trim_end_keeps(s: Seq<char>, i: int)
    requires
        0 <= i < s.len(),
        !is_white_space(s[i]),
    ensures
        trim_end(s).len() > i,
    decreases s.len(),
{
    if is_white_space(s.last()) {
        lemma_trim_end_keeps(s.drop_last(), i);
    }
}

/// A line ends at a line feed, and a carriage return right before it belongs to no line; any other
/// carriage return belongs to its line, and the last line needs no end.
pub proof fn carriage_returns_before_line_feeds_are_dropped(line: Seq<char>, rest: Seq<char>)
    requires
        forall|i: int| 0 <= i < line.len() ==> #[trigger] line[i] != '\n',
    ensures
        lines(line + seq!['\r', '\n'] + rest) == seq![line] + lines(rest),
        line.len() == 0 || line.last() != '\r' ==> lines(line + seq!['\n'] + rest) == seq![line]
            + lines(rest),
        line.len() > 0 ==> lines(line) == seq![line],
{
    let ended = line + seq!['\r'];
    assert(line + seq!['\r', '\n'] + rest =~= ended + seq!['\n'] + rest);
    assert(without_return(ended) =~= line);
    lines_behind_a_line(ended, rest);
    lines_behind_a_line(line, rest);
    lemma_position_is(line, '\n', line.len() as int);
}

/// Replacing a character replaces it wherever it stands, and changes nothing else.
pub proof fn every_place_is_replaced(s: Seq<char>, from: char, to: char, i: int)
    requires
        0 <= i < s.len(),
    ensures
        replace(s, from, to).len() == s.len(),
        s[i] == from ==> replace(s, from, to)[i] == to,
        s[i] != from ==> replace(s, from, to)[i] == s[i],
{
}

} // verus!
