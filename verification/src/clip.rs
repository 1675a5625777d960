//! Texts cut down to a number of bytes, at the boundaries of their characters.

use vstd::prelude::*;

use crate::text;

verus! {

/// The number of bytes of `s` in UTF-8.
pub open spec fn byte_len(s: Seq<char>) -> nat {
    vstd::utf8::encode_utf8(s).len()
}

/// The number of bytes of `c` in UTF-8.
pub open spec fn width(c: char) -> nat {
    let u = c as u32;
    if u <= 0x7f {
        1
    } else if u <= 0x7ff {
        2
    } else if u <= 0xffff {
        3
    } else {
        4
    }
}

/// The longest beginning of `s` of at most `max` bytes.
pub open spec fn head(s: Seq<char>, max: nat) -> Seq<char>
    decreases s.len(),
{
    if s.len() == 0 || byte_len(s) <= max {
        s
    } else {
        head(s.drop_last(), max)
    }
}

/// The longest end of `s` of at most `max` bytes.
pub open spec fn tail(s: Seq<char>, max: nat) -> Seq<char>
    decreases s.len(),
{
    if s.len() == 0 || byte_len(s) <= max {
        s
    } else {
        tail(s.drop_first(), max)
    }
}

/// The bytes of a text are those of its parts.
pub proof fn lemma_byte_len_concat(a: Seq<char>, b: Seq<char>)
    ensures
        byte_len(a + b) == byte_len(a) + byte_len(b),
    decreases a.len(),
{
    if a.len() == 0 {
        assert(a + b =~= b);
    } else {
        lemma_byte_len_concat(a.drop_first(), b);
        assert((a + b).drop_first() =~= a.drop_first() + b);
        assert((a + b)[0] == a[0]);
    }
}

/// One character takes as many bytes as its width says.
pub proof fn lemma_byte_len_single(c: char)
    ensures
        byte_len(seq![c]) == width(c),
{
    vstd::utf8::char_is_scalar(c);
    assert(seq![c].drop_first() =~= seq![]);
    assert(vstd::utf8::encode_utf8(seq![c].drop_first()) =~= seq![]);
}

/// A further character at the end adds its width.
proof fn lemma_byte_len_push(s: Seq<char>, k: int)
    requires
        0 <= k < s.len(),
    ensures
        byte_len(s.take(k + 1)) == byte_len(s.take(k)) + width(s[k]),
{
    lemma_byte_len_concat(s.take(k), seq![s[k]]);
    lemma_byte_len_single(s[k]);
    assert(s.take(k + 1) =~= s.take(k) + seq![s[k]]);
}

/// A further character at the beginning adds its width.
proof fn lemma_byte_len_front(s: Seq<char>, k: int)
    requires
        0 <= k < s.len(),
    ensures
        byte_len(s.skip(k)) == width(s[k]) + byte_len(s.skip(k + 1)),
{
    lemma_byte_len_concat(seq![s[k]], s.skip(k + 1));
    lemma_byte_len_single(s[k]);
    assert(s.skip(k) =~= seq![s[k]] + s.skip(k + 1));
}

/// A longer beginning of a text takes no fewer bytes.
proof fn lemma_byte_len_take(s: Seq<char>, i: int, j: int)
    requires
        0 <= i <= j <= s.len(),
    ensures
        byte_len(s.take(i)) <= byte_len(s.take(j)),
{
    lemma_byte_len_concat(s.take(i), s.subrange(i, j));
    assert(s.take(j) =~= s.take(i) + s.subrange(i, j));
}

/// A longer end of a text takes no fewer bytes.
proof fn lemma_byte_len_skip(s: Seq<char>, i: int, j: int)
    requires
        0 <= i <= j <= s.len(),
    ensures
        byte_len(s.skip(j)) <= byte_len(s.skip(i)),
{
    lemma_byte_len_concat(s.subrange(i, j), s.skip(j));
    assert(s.skip(i) =~= s.subrange(i, j) + s.skip(j));
}

/// The longest beginning that fits ends where one more character would not fit.
proof fn lemma_head_at(s: Seq<char>, max: nat, k: int)
    requires
        0 <= k <= s.len(),
        byte_len(s.take(k)) <= max,
        k < s.len() ==> byte_len(s.take(k + 1)) > max,
    ensures
        head(s, max) == s.take(k),
    decreases s.len(),
{
    assert(s.take(s.len() as int) =~= s);
    if k < s.len() {
        lemma_byte_len_take(s, k + 1, s.len() as int);
        let t = s.drop_last();
        assert(t.take(k) =~= s.take(k));
        if k < t.len() {
            assert(t.take(k + 1) =~= s.take(k + 1));
        }
        lemma_head_at(t, max, k);
    }
}

/// The longest end that fits begins where one more character would not fit.
proof fn lemma_tail_at(s: Seq<char>, max: nat, k: int)
    requires
        0 <= k <= s.len(),
        byte_len(s.skip(k)) <= max,
        k > 0 ==> byte_len(s.skip(k - 1)) > max,
    ensures
        tail(s, max) == s.skip(k),
    decreases s.len(),
{
    assert(s.skip(0) =~= s);
    if k > 0 {
        lemma_byte_len_skip(s, 0, k - 1);
        let t = s.drop_first();
        assert(t.skip(k - 1) =~= s.skip(k));
        if k > 1 {
            assert(t.skip(k - 2) =~= s.skip(k - 1));
        }
        lemma_tail_at(t, max, k - 1);
    }
}

/// The number of bytes of `c` in UTF-8.
fn width_of(c: char) -> (w: usize)
    ensures
        w == width(c),
        1 <= w <= 4,
{
    let u: u32 = c as u32;
    if u <= 0x7f {
        1
    } else if u <= 0x7ff {
        2
    } else if u <= 0xffff {
        3
    } else {
        4
    }
}

/// The number of bytes of `s`.
pub fn bytes_of(s: &str) -> (n: usize)
    ensures
        n == byte_len(s@),
{
    s.as_bytes().len()
}

/// The longest beginning of `s` of at most `max` bytes.
pub fn truncate_str(s: &str, max: usize) -> (r: &str)
    ensures
        r@ == head(s@, max as nat),
{
    if bytes_of(s) <= max {
        return s;
    }
    let mut left: usize = max;
    let mut k: usize = 0;
    let v: Vec<char> = text::chars_of(s);
    let n: usize = v.len();
    let mut full: bool = false;
    assert(byte_len(s@.take(0)) == 0);
    while k < n && !full
        invariant
            v@ == s@,
            n == s@.len(),
            k <= n,
            left <= max,
            byte_len(s@.take(k as int)) + left == max,
            full ==> k < n && width(s@[k as int]) > left,
        decreases n - k + (if full { 0int } else { 1int }),
    {
        let w: usize = width_of(v[k]);
        if w > left {
            full = true;
        } else {
            proof {
                lemma_byte_len_push(s@, k as int);
            }
            left = left - w;
            k = k + 1;
        }
    }
    proof {
        if k < n {
            lemma_byte_len_push(s@, k as int);
        }
        lemma_head_at(s@, max as nat, k as int);
    }
    let r: &str = s.substring_char(0, k);
    assert(r@ =~= s@.take(k as int));
    r
}

/// The longest end of `s` of at most `max` bytes.
pub fn keep_tail(s: &str, max: usize) -> (r: String)
    ensures
        r@ == tail(s@, max as nat),
{
    let v: Vec<char> = text::chars_of(s);
    let n: usize = v.len();
    let mut left: usize = max;
    let mut k: usize = n;
    let mut full: bool = false;
    assert(byte_len(s@.skip(n as int)) == 0);
    while k > 0 && !full
        invariant
            v@ == s@,
            n == s@.len(),
            k <= n,
            left <= max,
            byte_len(s@.skip(k as int)) + left == max,
            full ==> k > 0 && width(s@[k - 1]) > left,
        decreases k + (if full { 0int } else { 1int }),
    {
        let w: usize = width_of(v[k - 1]);
        proof {
            lemma_byte_len_front(s@, k - 1);
        }
        if w > left {
            full = true;
        } else {
            left = left - w;
            k = k - 1;
        }
    }
    proof {
        if k > 0 {
            lemma_byte_len_front(s@, k - 1);
        }
        lemma_tail_at(s@, max as nat, k as int);
    }
    let r: String = text::text_of(&v, k, n);
    assert(r@ =~= s@.skip(k as int));
    r
}

/// A cut text is a beginning of the whole, keeps to the limit, and is no shorter than the limit
/// asks: any longer beginning takes more bytes than allowed.
pub proof fn head_is_longest_that_fits(s: Seq<char>, max: nat)
    ensures
        head(s, max).len() <= s.len(),
        head(s, max) == s.take(head(s, max).len() as int),
        byte_len(head(s, max)) <= max,
        forall|k: int|
            head(s, max).len() < k <= s.len() ==> byte_len(#[trigger] s.take(k)) > max,
    decreases s.len(),
{
    assert(s.take(s.len() as int) =~= s);
    if s.len() > 0 && byte_len(s) > max {
        let t = s.drop_last();
        head_is_longest_that_fits(t, max);
        let n = head(s, max).len() as int;
        assert(t.take(n) =~= s.take(n));
        assert forall|k: int| n < k <= s.len() implies byte_len(#[trigger] s.take(k)) > max by {
            if k < s.len() {
                assert(t.take(k) =~= s.take(k));
            }
        }
    }
}

/// Cutting a text to one limit and then to another cuts it to the smaller of the two.
pub proof fn head_of_head(s: Seq<char>, first: nat, second: nat)
    ensures
        head(head(s, first), second) == head(s, if first <= second { first } else { second }),
{
    head_is_longest_that_fits(s, first);
    let cut = head(s, first);
    if first > second {
        head_is_longest_that_fits(cut, second);
        let k = head(cut, second).len() as int;
        assert(cut.take(k) =~= s.take(k));
        if k < s.len() {
            if k < cut.len() {
                assert(cut.take(k + 1) =~= s.take(k + 1));
                assert(byte_len(cut.take(k + 1)) > second);
            } else {
                assert(byte_len(s.take(k + 1)) > first);
            }
        }
        lemma_head_at(s, second, k);
    }
}

/// The kept end of a text is an end of the whole, keeps to the limit, and any longer end takes
/// more bytes than allowed.
pub proof fn tail_is_longest_that_fits(s: Seq<char>, max: nat)
    ensures
        tail(s, max).len() <= s.len(),
        tail(s, max) == s.skip(s.len() - tail(s, max).len()),
        byte_len(tail(s, max)) <= max,
        forall|k: int|
            0 <= k < s.len() - tail(s, max).len() ==> byte_len(#[trigger] s.skip(k)) > max,
    decreases s.len(),
{
    assert(s.skip(0) =~= s);
    if s.len() > 0 && byte_len(s) > max {
        let t = s.drop_first();
        tail_is_longest_that_fits(t, max);
        let n = tail(s, max).len();
        assert(t.skip(t.len() - n) =~= s.skip(s.len() - n));
        assert forall|k: int| 0 <= k < s.len() - n implies byte_len(#[trigger] s.skip(k)) > max by {
            if k > 0 {
                assert(t.skip(k - 1) =~= s.skip(k));
            }
        }
    }
}

/// `shown` is the longest beginning of `whole` that takes at most `max` bytes.
pub open spec fn is_longest_beginning(shown: Seq<char>, whole: Seq<char>, max: nat) -> bool {
    &&& shown.len() <= whole.len()
    &&& shown == whole.take(shown.len() as int)
    &&& byte_len(shown) <= max
    &&& forall|k: int| shown.len() < k <= whole.len() ==> byte_len(#[trigger] whole.take(k)) > max
}

/// A cut text is the longest beginning that keeps to the limit, and there is only one.
pub proof fn the_longest_beginning_is_kept(shown: Seq<char>, whole: Seq<char>, max: nat)
    ensures
        is_longest_beginning(shown, whole, max) <==> shown == head(whole, max),
{
    head_is_longest_that_fits(whole, max);
    let kept = head(whole, max);
    if is_longest_beginning(shown, whole, max) {
        if shown.len() < kept.len() {
            assert(byte_len(whole.take(kept.len() as int)) > max);
        } else if kept.len() < shown.len() {
            assert(byte_len(whole.take(shown.len() as int)) > max);
        }
    }
}

} // verus!
