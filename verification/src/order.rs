//! Texts in the order of their bytes.

use vstd::prelude::*;

use crate::text;

verus! {

/// `a` comes before `b` in dictionary order, or is equal to it.
pub open spec fn bytes_at_most(a: Seq<u8>, b: Seq<u8>) -> bool
    decreases a.len(),
{
    ||| a.len() == 0
    ||| b.len() > 0 && a[0] < b[0]
    ||| b.len() > 0 && a[0] == b[0] && bytes_at_most(a.drop_first(), b.drop_first())
}

/// `a` comes before `b` in the order of their bytes, or is equal to it.
pub open spec fn at_most(a: Seq<char>, b: Seq<char>) -> bool {
    bytes_at_most(vstd::utf8::encode_utf8(a), vstd::utf8::encode_utf8(b))
}

/// `at_most` as a relation.
pub open spec fn text_order() -> spec_fn(Seq<char>, Seq<char>) -> bool {
    |a: Seq<char>, b: Seq<char>| at_most(a, b)
}

/// `s` in the order of the bytes of its texts.
pub open spec fn in_order(s: Seq<Seq<char>>) -> Seq<Seq<char>> {
    s.sort_by(text_order())
}

/// `s` without the texts that equal the one before them.
pub open spec fn without_repeats(s: Seq<Seq<char>>) -> Seq<Seq<char>>
    decreases s.len(),
{
    if s.len() <= 1 {
        s
    } else if s[s.len() - 1] == s[s.len() - 2] {
        without_repeats(s.drop_last())
    } else {
        without_repeats(s.drop_last()).push(s.last())
    }
}

/// The different texts of `s`, in order.
pub open spec fn distinct_in_order(s: Seq<Seq<char>>) -> Seq<Seq<char>> {
    without_repeats(in_order(s))
}

proof fn lemma_bytes_reflexive(a: Seq<u8>)
    ensures
        bytes_at_most(a, a),
    decreases a.len(),
{
    if a.len() > 0 {
        lemma_bytes_reflexive(a.drop_first());
    }
}

proof fn lemma_bytes_total(a: Seq<u8>, b: Seq<u8>)
    ensures
        bytes_at_most(a, b) || bytes_at_most(b, a),
    decreases a.len(),
{
    if a.len() > 0 && b.len() > 0 {
        lemma_bytes_total(a.drop_first(), b.drop_first());
    }
}

proof fn lemma_bytes_antisymmetric(a: Seq<u8>, b: Seq<u8>)
    requires
        bytes_at_most(a, b),
        bytes_at_most(b, a),
    ensures
        a == b,
    decreases a.len(),
{
    if a.len() > 0 && b.len() > 0 {
        lemma_bytes_antisymmetric(a.drop_first(), b.drop_first());
        assert(a =~= seq![a[0]] + a.drop_first());
        assert(b =~= seq![b[0]] + b.drop_first());
    } else {
        assert(a =~= b);
    }
}

proof fn lemma_bytes_transitive(a: Seq<u8>, b: Seq<u8>, c: Seq<u8>)
    requires
        bytes_at_most(a, b),
        bytes_at_most(b, c),
    ensures
        bytes_at_most(a, c),
    decreases a.len(),
{
    if a.len() > 0 && a[0] == b[0] && b[0] == c[0] {
        lemma_bytes_transitive(a.drop_first(), b.drop_first(), c.drop_first());
    }
}

/// The order of texts is total.
pub proof fn text_order_is_total()
    ensures
        vstd::relations::total_ordering(text_order()),
{
    let order = text_order();
    assert forall|a: Seq<char>| #[trigger] order(a, a) by {
        lemma_bytes_reflexive(vstd::utf8::encode_utf8(a));
    }
    assert forall|a: Seq<char>, b: Seq<char>| #[trigger] order(a, b) && #[trigger] order(b, a)
        implies a == b by {
        lemma_bytes_antisymmetric(vstd::utf8::encode_utf8(a), vstd::utf8::encode_utf8(b));
        vstd::utf8::encode_utf8_decode_utf8(a);
        vstd::utf8::encode_utf8_decode_utf8(b);
    }
    assert forall|a: Seq<char>, b: Seq<char>, c: Seq<char>| #[trigger]
        order(a, b) && #[trigger] order(b, c) implies order(a, c) by {
        lemma_bytes_transitive(
            vstd::utf8::encode_utf8(a),
            vstd::utf8::encode_utf8(b),
            vstd::utf8::encode_utf8(c),
        );
    }
    assert forall|a: Seq<char>, b: Seq<char>| #[trigger] order(a, b) || #[trigger] order(b, a) by {
        lemma_bytes_total(vstd::utf8::encode_utf8(a), vstd::utf8::encode_utf8(b));
    }
}

/// Sorting keeps every text, as often as it occurs, and leaves them in order.
pub proof fn in_order_sorts(s: Seq<Seq<char>>)
    ensures
        vstd::relations::sorted_by(in_order(s), text_order()),
        in_order(s).to_multiset() == s.to_multiset(),
        in_order(s).len() == s.len(),
{
    text_order_is_total();
    s.lemma_sort_by_ensures(text_order());
    vstd::seq_lib::to_multiset_len(s);
    vstd::seq_lib::to_multiset_len(in_order(s));
}

/// Whether `a` comes before `b` in the order of their bytes, or is equal to it.
pub fn text_at_most(a: &str, b: &str) -> (r: bool)
    ensures
        r == at_most(a@, b@),
{
    let x: &[u8] = a.as_bytes();
    let y: &[u8] = b.as_bytes();
    let mut i: usize = 0;
    assert(x@.skip(0) =~= x@);
    assert(y@.skip(0) =~= y@);
    while i < x.len() && i < y.len() && x[i] == y[i]
        invariant
            i <= x@.len(),
            i <= y@.len(),
            bytes_at_most(x@, y@) == bytes_at_most(x@.skip(i as int), y@.skip(i as int)),
        decreases x@.len() - i,
    {
        assert(x@.skip(i as int).drop_first() =~= x@.skip(i + 1));
        assert(y@.skip(i as int).drop_first() =~= y@.skip(i + 1));
        i = i + 1;
    }
    if i >= x.len() {
        true
    } else if i >= y.len() {
        false
    } else {
        x[i] < y[i]
    }
}

/// Puts `x` into the sorted texts `r`, at its place.
fn insert_in_order(r: &mut Vec<String>, x: String)
    requires
        vstd::relations::sorted_by(text::texts(old(r)@), text_order()),
    ensures
        vstd::relations::sorted_by(text::texts(final(r)@), text_order()),
        text::texts(final(r)@).to_multiset() == text::texts(old(r)@).to_multiset().insert(x@),
{
    let ghost before = text::texts(r@);
    let mut p: usize = 0;
    while p < r.len() && text_at_most(r[p].as_str(), x.as_str())
        invariant
            p <= r@.len(),
            before == text::texts(r@),
            forall|i: int| 0 <= i < p ==> at_most(#[trigger] before[i], x@),
        decreases r@.len() - p,
    {
        assert(before[p as int] == r@[p as int]@);
        p = p + 1;
    }
    proof {
        text_order_is_total();
        if p < r@.len() {
            assert(before[p as int] == r@[p as int]@);
            lemma_bytes_total(
                vstd::utf8::encode_utf8(x@),
                vstd::utf8::encode_utf8(before[p as int]),
            );
        }
    }
    r.insert(p, x);
    proof {
        let after = text::texts(r@);
        assert(after =~= before.insert(p as int, x@));
        vstd::seq_lib::to_multiset_insert(before, p as int, x@);
        assert forall|i: int, j: int| 0 <= i < j < after.len() implies text_order()(
            #[trigger] after[i],
            #[trigger] after[j],
        ) by {
            let o = text_order();
            if i < p && j > p {
                assert(o(before[i], before[j - 1]));
            } else if j < p {
                assert(o(before[i], before[j]));
            } else if i > p {
                assert(o(before[i - 1], before[j - 1]));
            } else if i == p {
                assert(o(x@, before[p as int]));
                if j - 1 > p {
                    assert(o(before[p as int], before[j - 1]));
                }
            }
        }
    }
}

/// `v` in the order of the bytes of its texts.
pub fn sort_texts(v: Vec<String>) -> (r: Vec<String>)
    ensures
        text::texts(r@) == in_order(text::texts(v@)),
{
    let mut v = v;
    let ghost all = text::texts(v@);
    let mut r: Vec<String> = Vec::new();
    assert(text::texts(r@) =~= seq![]);
    proof {
        broadcast use vstd::multiset::group_multiset_axioms;

        vstd::seq_lib::to_multiset_len(text::texts(r@));
        assert(text::texts(r@).to_multiset() =~= vstd::multiset::Multiset::empty());
        assert(text::texts(r@).to_multiset().add(all.to_multiset()) =~= all.to_multiset());
    }
    while v.len() > 0
        invariant
            vstd::relations::sorted_by(text::texts(r@), text_order()),
            text::texts(r@).to_multiset().add(text::texts(v@).to_multiset()) == all.to_multiset(),
        decreases v@.len(),
    {
        let ghost left = text::texts(v@);
        let ghost done = text::texts(r@);
        if let Some(x) = v.pop() {
            insert_in_order(&mut r, x);
            proof {
                broadcast use vstd::multiset::group_multiset_axioms;

                assert(left =~= text::texts(v@).push(x@));
                vstd::seq_lib::to_multiset_build(text::texts(v@), x@);
                assert(text::texts(r@).to_multiset().add(text::texts(v@).to_multiset())
                    =~= done.to_multiset().add(left.to_multiset()));
            }
        }
    }
    proof {
        broadcast use vstd::multiset::group_multiset_axioms;

        assert(text::texts(v@) =~= seq![]);
        vstd::seq_lib::to_multiset_len(text::texts(v@));
        assert(text::texts(r@).to_multiset() =~= all.to_multiset());
        text_order_is_total();
        in_order_sorts(all);
        vstd::seq_lib::lemma_sorted_unique(text::texts(r@), in_order(all), text_order());
    }
    r
}

/// The different texts of `v`, in order.
pub fn sort_distinct(v: Vec<String>) -> (r: Vec<String>)
    ensures
        text::texts(r@) == distinct_in_order(text::texts(v@)),
{
    let sorted: Vec<String> = sort_texts(v);
    let ghost all = text::texts(sorted@);
    let mut r: Vec<String> = Vec::new();
    let mut i: usize = 0;
    assert(all.take(0) =~= seq![]);
    assert(text::texts(r@) =~= seq![]);
    while i < sorted.len()
        invariant
            all == text::texts(sorted@),
            i <= sorted@.len(),
            text::texts(r@) == without_repeats(all.take(i as int)),
        decreases sorted@.len() - i,
    {
        let ghost before = r@;
        let ghost part = all.take(i + 1);
        assert(part.drop_last() =~= all.take(i as int));
        assert(part.last() == sorted@[i as int]@);
        assert(i > 0 ==> part[i - 1] == sorted@[i - 1]@);
        if i == 0 || !text::same_text(sorted[i].as_str(), sorted[i - 1].as_str()) {
            let x: String = sorted[i].clone();
            r.push(x);
            assert(text::texts(r@) =~= text::texts(before).push(x@));
            if i == 0 {
                assert(text::texts(r@) =~= part);
            }
        }
        i = i + 1;
    }
    assert(all.take(i as int) =~= all);
    r
}

/// The texts of a sorted sequence that differ from the one before them rise strictly, and are the
/// texts of the sequence.
proof fn lemma_without_repeats(s: Seq<Seq<char>>)
    requires
        vstd::relations::sorted_by(s, text_order()),
    ensures
        forall|i: int, j: int|
            0 <= i < j < without_repeats(s).len() ==> {
                &&& at_most(#[trigger] without_repeats(s)[i], #[trigger] without_repeats(s)[j])
                &&& without_repeats(s)[i] != without_repeats(s)[j]
            },
        forall|x: Seq<char>| without_repeats(s).contains(x) <==> #[trigger] s.contains(x),
        s.len() > 0 ==> without_repeats(s).len() > 0 && without_repeats(s).last() == s.last(),
    decreases s.len(),
{
    if s.len() > 1 {
        let t = s.drop_last();
        let o = text_order();
        assert forall|i: int, j: int| 0 <= i < j < t.len() implies o(
            #[trigger] t[i],
            #[trigger] t[j],
        ) by {
            assert(o(s[i], s[j]));
        }
        lemma_without_repeats(t);
        let d = without_repeats(t);
        assert forall|x: Seq<char>| #[trigger] s.contains(x) <==> t.contains(x) || x == s.last() by {
            if s.contains(x) {
                let k = choose|k: int| 0 <= k < s.len() && s[k] == x;
                if k < t.len() {
                    assert(t[k] == x);
                }
            }
            if t.contains(x) {
                let k = choose|k: int| 0 <= k < t.len() && t[k] == x;
                assert(s[k] == x);
            }
            if x == s.last() {
                assert(s[s.len() - 1] == x);
            }
        }
        assert(t.last() == s[s.len() - 2]);
        if s[s.len() - 1] == s[s.len() - 2] {
            assert(t[t.len() - 1] == s.last());
            assert(t.contains(s.last()));
        } else {
            text_order_is_total();
            let r = d.push(s.last());
            assert(without_repeats(s) == r);
            assert forall|i: int, j: int| 0 <= i < j < r.len() implies at_most(
                #[trigger] r[i],
                #[trigger] r[j],
            ) && r[i] != r[j] by {
                if j == r.len() - 1 {
                    assert(o(s[s.len() - 2], s[s.len() - 1]));
                    if i < d.len() - 1 {
                        assert(at_most(d[i], d[d.len() - 1]));
                        assert(o(d[i], t.last()) && o(t.last(), s.last()));
                        assert(o(d[i], s.last()));
                        if d[i] == s.last() {
                            assert(o(s.last(), t.last()) && o(t.last(), s.last()));
                        }
                    }
                } else {
                    assert(at_most(d[i], d[j]) && d[i] != d[j]);
                }
            }
            assert forall|x: Seq<char>| r.contains(x) <==> #[trigger] s.contains(x) by {
                if r.contains(x) {
                    let k = choose|k: int| 0 <= k < r.len() && r[k] == x;
                    if k < d.len() {
                        assert(d[k] == x);
                        assert(d.contains(x));
                    }
                }
                if d.contains(x) {
                    let k = choose|k: int| 0 <= k < d.len() && d[k] == x;
                    assert(r[k] == x);
                }
                if x == s.last() {
                    assert(r[r.len() - 1] == x);
                }
                assert(t.contains(x) <==> d.contains(x));
            }
        }
    }
}

/// The different texts of a list, in order: they rise strictly, none is lost and none is added.
pub proof fn distinct_in_order_is_the_sorted_set(s: Seq<Seq<char>>)
    ensures
        forall|i: int, j: int|
            0 <= i < j < distinct_in_order(s).len() ==> {
                &&& at_most(#[trigger] distinct_in_order(s)[i], #[trigger] distinct_in_order(s)[j])
                &&& distinct_in_order(s)[i] != distinct_in_order(s)[j]
            },
        forall|x: Seq<char>| distinct_in_order(s).contains(x) <==> #[trigger] s.contains(x),
{
    let t = in_order(s);
    in_order_sorts(s);
    lemma_without_repeats(t);
    assert forall|x: Seq<char>| distinct_in_order(s).contains(x) <==> #[trigger] s.contains(x) by {
        vstd::seq_lib::to_multiset_contains(s, x);
        vstd::seq_lib::to_multiset_contains(t, x);
        assert(without_repeats(t).contains(x) <==> t.contains(x));
    }
}

} // verus!
