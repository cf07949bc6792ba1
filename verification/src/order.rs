//! Sorted lists of distinct texts.
use vstd::prelude::*;
use crate::text::{same, texts};

verus! {

/// The order of texts by their first difference, character by character. It is
/// the order of the UTF-8 bytes.
pub open spec fn before(a: Seq<char>, b: Seq<char>) -> bool
    decreases a.len(),
{
    if b.len() == 0 {
        false
    } else if a.len() == 0 {
        true
    } else if a[0] != b[0] {
        (a[0] as int) < (b[0] as int)
    } else {
        before(a.skip(1), b.skip(1))
    }
}

/// Each text of the list stands before all those that follow it.
pub open spec fn ascending(list: Seq<Seq<char>>) -> bool {
    forall|i: int, j: int| 0 <= i < j < list.len() ==> before(#[trigger] list[i], #[trigger] list[j])
}

/// A list with one more text, at the place where it belongs, unless the list
/// holds it already.
pub open spec fn inserted(list: Seq<Seq<char>>, x: Seq<char>) -> Seq<Seq<char>>
    decreases list.len(),
{
    if list.len() == 0 || before(x, list[0]) {
        seq![x] + list
    } else if list[0] == x {
        list
    } else {
        seq![list[0]] + inserted(list.skip(1), x)
    }
}

/// Nothing stands before itself.
pub proof fn before_irreflexive(a: Seq<char>)
    ensures
        !before(a, a),
    decreases a.len(),
{
    if a.len() > 0 {
        before_irreflexive(a.skip(1));
    }
}

/// Of two texts, one stands before the other or they are the same.
pub proof fn before_total(a: Seq<char>, b: Seq<char>)
    ensures
        before(a, b) || before(b, a) || a == b,
    decreases a.len(),
{
    if a.len() > 0 && b.len() > 0 && a[0] == b[0] {
        before_total(a.skip(1), b.skip(1));
        if a.skip(1) == b.skip(1) {
            assert forall|i: int| 0 <= i < a.len() implies a[i] == b[i] by {
                if i > 0 {
                    assert(a.skip(1)[i - 1] == b.skip(1)[i - 1]);
                }
            }
            assert(a.skip(1).len() == b.skip(1).len());
            assert(a =~= b);
        }
    } else if a.len() == 0 && b.len() == 0 {
        assert(a =~= b);
    }
}

/// The order carries over from text to text.
pub proof fn before_transitive(a: Seq<char>, b: Seq<char>, c: Seq<char>)
    requires
        before(a, b),
        before(b, c),
    ensures
        before(a, c),
    decreases a.len(),
{
    if a.len() > 0 && a[0] == b[0] && b[0] == c[0] {
        before_transitive(a.skip(1), b.skip(1), c.skip(1));
    }
}

fn code(c: char) -> (n: u32)
    ensures
        n == c as int,
{
    c as u32
}

/// Whether `a` stands before `b`.
pub fn is_before(a: &[char], b: &[char]) -> (r: bool)
    ensures
        r == before(a@, b@),
{
    let mut i: usize = 0;
    proof {
        assert(a@.skip(0) == a@);
        assert(b@.skip(0) == b@);
    }
    while i < a.len() && i < b.len()
        invariant
            i <= a@.len(),
            i <= b@.len(),
            before(a@, b@) == before(a@.skip(i as int), b@.skip(i as int)),
        decreases a.len() - i,
    {
        if a[i] != b[i] {
            return code(a[i]) < code(b[i]);
        }
        i += 1;
        proof {
            assert(a@.skip(i - 1).skip(1) == a@.skip(i as int));
            assert(b@.skip(i - 1).skip(1) == b@.skip(i as int));
        }
    }
    i < b.len()
}

proof fn inserted_at(list: Seq<Seq<char>>, x: Seq<char>, k: int)
    requires
        0 <= k <= list.len(),
        forall|j: int| 0 <= j < k ==> before(#[trigger] list[j], x),
        k == list.len() || !before(list[k], x),
    ensures
        inserted(list, x) == if k < list.len() && list[k] == x {
            list
        } else {
            list.insert(k, x)
        },
    decreases k,
{
    if k > 0 {
        let rest = list.skip(1);
        before_irreflexive(x);
        assert(!before(x, list[0])) by {
            if before(x, list[0]) {
                before_transitive(x, list[0], x);
            }
        }
        assert(list[0] != x);
        inserted_at(rest, x, k - 1);
        assert(seq![list[0]] + inserted(rest, x) =~= if k < list.len() && list[k] == x {
            list
        } else {
            list.insert(k, x)
        });
    } else if list.len() > 0 {
        before_total(list[0], x);
        before_irreflexive(x);
        if list[0] != x {
            assert(seq![x] + list =~= list.insert(0, x));
        }
    } else {
        assert(seq![x] + list =~= list.insert(0, x));
    }
}

/// Inserting keeps the list ascending, and adds the text and nothing else.
pub proof fn inserted_keeps_order(list: Seq<Seq<char>>, x: Seq<char>)
    requires
        ascending(list),
    ensures
        ascending(inserted(list, x)),
        forall|y: Seq<char>| #[trigger]
            inserted(list, x).contains(y) <==> list.contains(y) || y == x,
    decreases list.len(),
{
    let out = inserted(list, x);
    if list.len() == 0 {
        assert(out =~= seq![x]);
        assert(out[0] == x);
    } else if before(x, list[0]) {
        assert forall|i: int, j: int| 0 <= i < j < out.len() implies before(
            #[trigger] out[i],
            #[trigger] out[j],
        ) by {
            if i == 0 {
                if j > 1 {
                    before_transitive(x, list[0], list[j - 1]);
                }
            } else {
                assert(before(list[i - 1], list[j - 1]));
            }
        }
        assert forall|y: Seq<char>| #[trigger] out.contains(y) <==> list.contains(y) || y
            == x by {
            assert(out[0] == x);
            if list.contains(y) {
                let k = choose|k: int| 0 <= k < list.len() && list[k] == y;
                assert(out[k + 1] == y);
            }
            if out.contains(y) {
                let k = choose|k: int| 0 <= k < out.len() && out[k] == y;
                if k > 0 {
                    assert(list[k - 1] == y);
                }
            }
        }
    } else if list[0] == x {
    } else {
        let rest = list.skip(1);
        assert forall|i: int, j: int| 0 <= i < j < rest.len() implies before(
            #[trigger] rest[i],
            #[trigger] rest[j],
        ) by {
            assert(before(list[i + 1], list[j + 1]));
        }
        inserted_keeps_order(rest, x);
        let tail = inserted(rest, x);
        before_total(list[0], x);
        assert forall|i: int, j: int| 0 <= i < j < out.len() implies before(
            #[trigger] out[i],
            #[trigger] out[j],
        ) by {
            assert(out[j] == tail[j - 1]);
            if i == 0 {
                assert(tail.contains(tail[j - 1]));
                if tail[j - 1] != x {
                    let k = choose|k: int| 0 <= k < rest.len() && rest[k] == tail[j - 1];
                    assert(before(list[0], list[k + 1]));
                }
            } else {
                assert(before(tail[i - 1], tail[j - 1]));
            }
        }
        assert forall|y: Seq<char>| #[trigger] out.contains(y) <==> list.contains(y) || y
            == x by {
            assert(tail.contains(y) <==> rest.contains(y) || y == x);
            if out.contains(y) {
                let k = choose|k: int| 0 <= k < out.len() && out[k] == y;
                if k > 0 {
                    assert(tail[k - 1] == y);
                    if rest.contains(y) {
                        let m = choose|m: int| 0 <= m < rest.len() && rest[m] == y;
                        assert(list[m + 1] == y);
                    }
                } else {
                    assert(list[0] == y);
                }
            }
            if list.contains(y) {
                let m = choose|m: int| 0 <= m < list.len() && list[m] == y;
                if m > 0 {
                    assert(rest[m - 1] == y);
                    let k = choose|k: int| 0 <= k < tail.len() && tail[k] == y;
                    assert(out[k + 1] == y);
                } else {
                    assert(out[0] == y);
                }
            }
            if y == x {
                let k = choose|k: int| 0 <= k < tail.len() && tail[k] == y;
                assert(out[k + 1] == y);
            }
        }
    }
}

/// Inserts a text into an ascending list, at its place.
pub fn insert_sorted(list: &mut Vec<Vec<char>>, x: Vec<char>)
    ensures
        texts(final(list)@) == inserted(texts(old(list)@), x@),
{
    let ghost all = texts(list@);
    let mut k: usize = 0;
    while k < list.len() && is_before(list[k].as_slice(), x.as_slice())
        invariant
            k <= list@.len(),
            all == texts(list@),
            list@ == old(list)@,
            forall|j: int| 0 <= j < k ==> before(#[trigger] all[j], x@),
        decreases list.len() - k,
    {
        k += 1;
    }
    proof {
        inserted_at(all, x@, k as int);
    }
    if k < list.len() && same(list[k].as_slice(), x.as_slice()) {
        return ;
    }
    list.insert(k, x);
    proof {
        assert(texts(list@) =~= all.insert(k as int, x@));
    }
}

} // verus!
