//! From raw hits to what the reader is shown.
//!
//! A cosine is held as the bits of a single-precision number. Ordering the numbers is
//! then ordering integers, and nothing here computes with them.
use vstd::prelude::*;
use crate::config::HOOK_MIN_COSINE;
use crate::path::{below, join_path};
use crate::text::{chars_of, same_str, string_of};

verus! {

/// Where a number stands in the total order of single-precision numbers, by its bits:
/// negative ones before positive ones, and what is no number outside both.
pub open spec fn rank(bits: u32) -> int {
    if bits < 0x8000_0000 {
        bits as int
    } else {
        0x7fff_ffff - bits
    }
}

/// Where a number stands in the total order.
pub fn rank_of(bits: u32) -> (out: i64)
    ensures
        out == rank(bits),
{
    if bits < 0x8000_0000 {
        bits as i64
    } else {
        0x7fff_ffff - bits as i64
    }
}

/// A cosine that clears the hook's threshold: at least that, and a number. Infinity
/// is the last number.
pub open spec fn clears_threshold(bits: u32) -> bool {
    HOOK_MIN_COSINE <= bits <= 0x7f80_0000
}

/// One chunk that a search found.
#[derive(Debug, Clone, PartialEq, Eq)]
pub struct Hit {
    /// Fusion score, as the bits of a single-precision number. Good for ordering,
    /// useless as a relevance threshold: it is derived purely from rank.
    pub score: u32,
    /// Cosine similarity against the query embedding, as the bits of a
    /// single-precision number. Unlike the score this is calibrated and comparable
    /// across queries, so it is what the hook decides on.
    pub cosine: u32,
    pub title: String,
    pub rel_path: String,
    pub heading_path: String,
    pub captured: String,
    pub source_type: String,
    pub text: String,
}

/// The texts of a [`Hit`].
#[verifier::ext_equal]
pub struct HitView {
    pub score: u32,
    pub cosine: u32,
    pub title: Seq<char>,
    pub rel_path: Seq<char>,
    pub heading_path: Seq<char>,
    pub captured: Seq<char>,
    pub source_type: Seq<char>,
    pub text: Seq<char>,
}

impl View for Hit {
    type V = HitView;

    open spec fn view(&self) -> HitView {
        HitView {
            score: self.score,
            cosine: self.cosine,
            title: self.title@,
            rel_path: self.rel_path@,
            heading_path: self.heading_path@,
            captured: self.captured@,
            source_type: self.source_type@,
            text: self.text@,
        }
    }
}

impl Hit {
    /// A copy of a hit.
    pub fn copy(&self) -> (out: Self)
        ensures
            out@ == self@,
    {
        Hit {
            score: self.score,
            cosine: self.cosine,
            title: self.title.clone(),
            rel_path: self.rel_path.clone(),
            heading_path: self.heading_path.clone(),
            captured: self.captured.clone(),
            source_type: self.source_type.clone(),
            text: self.text.clone(),
        }
    }
}

/// The texts of a list of hits.
pub open spec fn hit_views(hits: Seq<Hit>) -> Seq<HitView> {
    hits.map_values(|h: Hit| h@)
}

/// A pointer at a note. Carries when the note was captured, so staleness is visible at
/// the point of use rather than something the reader has to go and check.
#[derive(Debug, Clone, PartialEq, Eq)]
pub struct Pointer {
    pub title: String,
    pub source_type: String,
    pub path: String,
    pub rel_path: String,
    pub heading_path: String,
    pub captured: String,
    /// As the bits of a single-precision number.
    pub cosine: u32,
}

/// The texts of a [`Pointer`].
#[verifier::ext_equal]
pub struct PointerView {
    pub title: Seq<char>,
    pub source_type: Seq<char>,
    pub path: Seq<char>,
    pub rel_path: Seq<char>,
    pub heading_path: Seq<char>,
    pub captured: Seq<char>,
    pub cosine: u32,
}

impl View for Pointer {
    type V = PointerView;

    open spec fn view(&self) -> PointerView {
        PointerView {
            title: self.title@,
            source_type: self.source_type@,
            path: self.path@,
            rel_path: self.rel_path@,
            heading_path: self.heading_path@,
            captured: self.captured@,
            cosine: self.cosine,
        }
    }
}

impl Pointer {
    /// A copy of a pointer.
    pub fn copy(&self) -> (out: Self)
        ensures
            out@ == self@,
    {
        Pointer {
            title: self.title.clone(),
            source_type: self.source_type.clone(),
            path: self.path.clone(),
            rel_path: self.rel_path.clone(),
            heading_path: self.heading_path.clone(),
            captured: self.captured.clone(),
            cosine: self.cosine,
        }
    }
}

/// The texts of a list of pointers.
pub open spec fn pointer_views(pointers: Seq<Pointer>) -> Seq<PointerView> {
    pointers.map_values(|p: Pointer| p@)
}

/// Where a file of a labeled root is: below the root's directory where a root with the
/// label is known, else as it is named.
pub open spec fn path_in(
    roots: Seq<(&str, &str)>,
    label: Seq<char>,
    rel: Seq<char>,
    i: int,
) -> Seq<char>
    decreases roots.len() - i,
{
    if i < 0 || i >= roots.len() {
        rel
    } else if roots[i].0@ == label {
        below(roots[i].1@, rel)
    } else {
        path_in(roots, label, rel, i + 1)
    }
}

fn locate(roots: &[(&str, &str)], label: &str, rel: &str) -> (out: String)
    ensures
        out@ == path_in(roots@, label@, rel@, 0),
{
    let mut i: usize = 0;
    while i < roots.len()
        invariant
            i <= roots@.len(),
            path_in(roots@, label@, rel@, 0) == path_in(roots@, label@, rel@, i as int),
        decreases roots.len() - i,
    {
        let (name, dir) = roots[i];
        if same_str(name, label) {
            return string_of(join_path(dir, rel).as_slice());
        }
        i += 1;
    }
    string_of(chars_of(rel).as_slice())
}

/// The pointer at the note that a hit was found in.
pub open spec fn pointer_of(roots: Seq<(&str, &str)>, h: HitView) -> PointerView {
    PointerView {
        title: h.title,
        source_type: h.source_type,
        path: path_in(roots, h.source_type, h.rel_path, 0),
        rel_path: h.rel_path,
        heading_path: h.heading_path,
        captured: h.captured,
        cosine: h.cosine,
    }
}

/// A pointer at the file that a hit was found in.
pub open spec fn points_at(p: PointerView, h: HitView) -> bool {
    p.source_type == h.source_type && p.rel_path == h.rel_path
}

/// The first pointer at or after position `i` at the file of a hit.
pub open spec fn pointer_at(list: Seq<PointerView>, h: HitView, i: int) -> Option<int>
    decreases list.len() - i,
{
    if i < 0 || i >= list.len() {
        None
    } else if points_at(list[i], h) {
        Some(i)
    } else {
        pointer_at(list, h, i + 1)
    }
}

/// Pointers with one more hit: a hit below the threshold is nothing, one in a file that is
/// pointed at already makes the pointer better or is nothing, and any other makes a
/// new pointer.
pub open spec fn with_hit(
    list: Seq<PointerView>,
    roots: Seq<(&str, &str)>,
    h: HitView,
) -> Seq<PointerView> {
    if !clears_threshold(h.cosine) {
        list
    } else {
        match pointer_at(list, h, 0) {
            Some(i) => if h.cosine > list[i].cosine {
                list.update(
                    i,
                    PointerView { cosine: h.cosine, heading_path: h.heading_path, ..list[i] },
                )
            } else {
                list
            },
            None => list.push(pointer_of(roots, h)),
        }
    }
}

/// The pointers that a list of hits comes to.
pub open spec fn consolidated(hits: Seq<HitView>, roots: Seq<(&str, &str)>) -> Seq<PointerView>
    decreases hits.len(),
{
    if hits.len() == 0 {
        seq![]
    } else {
        with_hit(consolidated(hits.drop_last(), roots), roots, hits.last())
    }
}

proof fn pointer_at_bounds(list: Seq<PointerView>, h: HitView, i: int)
    requires
        0 <= i,
    ensures
        pointer_at(list, h, i) matches Some(k) ==> i <= k < list.len() && points_at(list[k], h),
        pointer_at(list, h, i) is None ==> forall|j: int|
            i <= j < list.len() ==> !points_at(#[trigger] list[j], h),
    decreases list.len() - i,
{
    if i < list.len() && !points_at(list[i], h) {
        pointer_at_bounds(list, h, i + 1);
    }
}

/// Reduces raw hits to one pointer per file, keeping the best cosine.
///
/// This is where a split query is put back together. Each unit is searched separately,
/// and a chunk scores as the best it matched any one of them: the best cosine, not the
/// fusion score, which is derived purely from rank, so that nothing could be decided on it.
///
/// Takes label and directory pairs, in which the first with a label counts.
pub fn consolidate(hits: &Vec<Hit>, roots: &[(&str, &str)]) -> (out: Vec<Pointer>)
    ensures
        pointer_views(out@) == consolidated(hit_views(hits@), roots@),
{
    let ghost all = hit_views(hits@);
    let mut best: Vec<Pointer> = Vec::new();
    let mut i: usize = 0;
    proof {
        assert(all.take(0) =~= seq![]);
        assert(pointer_views(best@) =~= seq![]);
    }
    while i < hits.len()
        invariant
            i <= hits@.len(),
            all == hit_views(hits@),
            pointer_views(best@) == consolidated(all.take(i as int), roots@),
        decreases hits.len() - i,
    {
        let h = &hits[i];
        proof {
            assert(all[i as int] == h@);
            assert(all.take(i + 1).drop_last() =~= all.take(i as int));
        }
        i += 1;
        if !(HOOK_MIN_COSINE <= h.cosine && h.cosine <= 0x7f80_0000) {
            continue ;
        }
        let ghost list = pointer_views(best@);
        let mut k: usize = 0;
        while k < best.len() && !(same_str(best[k].source_type.as_str(), h.source_type.as_str())
            && same_str(best[k].rel_path.as_str(), h.rel_path.as_str()))
            invariant
                k <= best@.len(),
                list == pointer_views(best@),
                pointer_at(list, h@, 0) == pointer_at(list, h@, k as int),
            decreases best.len() - k,
        {
            proof {
                assert(list[k as int] == best@[k as int]@);
            }
            k += 1;
        }
        if k < best.len() {
            proof {
                assert(list[k as int] == best@[k as int]@);
            }
            if h.cosine > best[k].cosine {
                best[k].cosine = h.cosine;
                best[k].heading_path = h.heading_path.clone();
                proof {
                    assert(best@[k as int]@ =~= (PointerView {
                        cosine: h.cosine,
                        heading_path: h.heading_path@,
                        ..list[k as int]
                    }));
                    assert(pointer_views(best@) =~= list.update(
                        k as int,
                        PointerView {
                            cosine: h.cosine,
                            heading_path: h.heading_path@,
                            ..list[k as int]
                        },
                    ));
                }
            }
        } else {
            let path = locate(roots, h.source_type.as_str(), h.rel_path.as_str());
            let p = Pointer {
                title: h.title.clone(),
                source_type: h.source_type.clone(),
                path,
                rel_path: h.rel_path.clone(),
                heading_path: h.heading_path.clone(),
                captured: h.captured.clone(),
                cosine: h.cosine,
            };
            let ghost made = p@;
            best.push(p);
            proof {
                assert(made =~= pointer_of(roots@, h@));
                assert(pointer_views(best@) =~= list.push(made));
            }
        }
    }
    proof {
        assert(all.take(i as int) =~= all);
    }
    best
}

/// No two pointers are at the same file.
pub open spec fn distinct_files(out: Seq<PointerView>) -> bool {
    forall|i: int, j: int|
        0 <= i < j < out.len() ==> (#[trigger] out[i]).source_type != (
        #[trigger] out[j]).source_type || out[i].rel_path != out[j].rel_path
}

/// Every pointer clears the threshold and is as good as the best hit of its file.
pub open spec fn all_best(hits: Seq<HitView>, out: Seq<PointerView>) -> bool {
    forall|i: int|
        0 <= i < out.len() ==> clears_threshold((#[trigger] out[i]).cosine) && is_best(hits, out[i])
}

/// Every file with a hit that clears the threshold is pointed at.
pub open spec fn all_pointed_at(hits: Seq<HitView>, out: Seq<PointerView>) -> bool {
    forall|m: int|
        0 <= m < hits.len() && clears_threshold((#[trigger] hits[m]).cosine) ==> is_pointed_at(
            out,
            hits[m],
        )
}

proof fn distinct_files_kept(before: Seq<PointerView>, roots: Seq<(&str, &str)>, h: HitView)
    requires
        distinct_files(before),
    ensures
        distinct_files(with_hit(before, roots, h)),
{
    pointer_at_bounds(before, h, 0);
    let out = with_hit(before, roots, h);
    assert forall|i: int, j: int| 0 <= i < j < out.len() implies (#[trigger] out[i]).source_type
        != (#[trigger] out[j]).source_type || out[i].rel_path != out[j].rel_path by {
        assert(i < before.len());
        if j < before.len() {
            assert(before[i].source_type != before[j].source_type || before[i].rel_path
                != before[j].rel_path);
        } else {
            assert(!points_at(before[i], h));
        }
    }
}

proof fn all_pointed_kept(
    rest: Seq<HitView>,
    before: Seq<PointerView>,
    roots: Seq<(&str, &str)>,
    h: HitView,
)
    requires
        all_pointed_at(rest, before),
    ensures
        all_pointed_at(rest.push(h), with_hit(before, roots, h)),
{
    pointer_at_bounds(before, h, 0);
    let hits = rest.push(h);
    let out = with_hit(before, roots, h);
    assert forall|m: int|
        0 <= m < hits.len() && clears_threshold((#[trigger] hits[m]).cosine) implies is_pointed_at(
        out,
        hits[m],
    ) by {
        if m < rest.len() {
            assert(hits[m] == rest[m]);
            assert(is_pointed_at(before, rest[m]));
            let k = choose|k: int|
                0 <= k < before.len() && points_at(#[trigger] before[k], rest[m]);
            assert(points_at(out[k], hits[m]));
        } else {
            match pointer_at(before, h, 0) {
                Some(k) => {
                    assert(points_at(out[k], h));
                },
                None => {
                    assert(points_at(out[before.len() as int], h));
                },
            }
        }
    }
}

proof fn best_grows(rest: Seq<HitView>, h: HitView, p: PointerView)
    requires
        is_best(rest, p),
        points_at(p, h) && clears_threshold(h.cosine) ==> h.cosine <= p.cosine,
    ensures
        is_best(rest.push(h), p),
{
    let hits = rest.push(h);
    let m = choose|m: int|
        0 <= m < rest.len() && points_at(p, #[trigger] rest[m]) && rest[m].cosine == p.cosine
            && rest[m].heading_path == p.heading_path;
    assert(hits[m] == rest[m]);
    assert forall|n: int|
        0 <= n < hits.len() && points_at(p, #[trigger] hits[n]) && clears_threshold(
            hits[n].cosine,
        ) implies hits[n].cosine <= p.cosine by {
        if n < rest.len() {
            assert(hits[n] == rest[n]);
        }
    }
}

proof fn new_best(rest: Seq<HitView>, h: HitView, p: PointerView)
    requires
        points_at(p, h),
        p.cosine == h.cosine,
        p.heading_path == h.heading_path,
        forall|m: int|
            0 <= m < rest.len() && points_at(p, #[trigger] rest[m]) && clears_threshold(rest[m].cosine)
                ==> rest[m].cosine <= h.cosine,
    ensures
        is_best(rest.push(h), p),
{
    let hits = rest.push(h);
    assert(hits[rest.len() as int] == h);
    assert forall|n: int|
        0 <= n < hits.len() && points_at(p, #[trigger] hits[n]) && clears_threshold(
            hits[n].cosine,
        ) implies hits[n].cosine <= p.cosine by {
        if n < rest.len() {
            assert(hits[n] == rest[n]);
        }
    }
}

proof fn old_pointer_stays_best(
    rest: Seq<HitView>,
    before: Seq<PointerView>,
    roots: Seq<(&str, &str)>,
    h: HitView,
    i: int,
)
    requires
        distinct_files(before),
        0 <= i < before.len(),
        clears_threshold(before[i].cosine),
        is_best(rest, before[i]),
    ensures
        clears_threshold(with_hit(before, roots, h)[i].cosine),
        is_best(rest.push(h), with_hit(before, roots, h)[i]),
{
    pointer_at_bounds(before, h, 0);
    let p = before[i];
    let q = with_hit(before, roots, h)[i];
    if q != p {
        assert(pointer_at(before, h, 0) == Some(i));
        assert forall|m: int|
            0 <= m < rest.len() && points_at(q, #[trigger] rest[m]) && clears_threshold(
                rest[m].cosine,
            ) implies rest[m].cosine <= h.cosine by {
            assert(points_at(p, rest[m]));
        }
        new_best(rest, h, q);
    } else {
        if points_at(p, h) && clears_threshold(h.cosine) {
            let k = pointer_at(before, h, 0)->Some_0;
            if k < i {
                assert(before[k].source_type != before[i].source_type || before[k].rel_path
                    != before[i].rel_path);
            } else if i < k {
                assert(before[i].source_type != before[k].source_type || before[i].rel_path
                    != before[k].rel_path);
            }
            assert(h.cosine <= p.cosine);
        }
        best_grows(rest, h, p);
    }
}

proof fn new_pointer_is_best(
    rest: Seq<HitView>,
    before: Seq<PointerView>,
    roots: Seq<(&str, &str)>,
    h: HitView,
)
    requires
        all_pointed_at(rest, before),
        pointer_at(before, h, 0) is None,
    ensures
        is_best(rest.push(h), pointer_of(roots, h)),
{
    pointer_at_bounds(before, h, 0);
    let p = pointer_of(roots, h);
    assert forall|m: int|
        0 <= m < rest.len() && points_at(p, #[trigger] rest[m]) && clears_threshold(
            rest[m].cosine,
        ) implies rest[m].cosine <= h.cosine by {
        assert(is_pointed_at(before, rest[m]));
        let k = choose|k: int| 0 <= k < before.len() && points_at(#[trigger] before[k], rest[m]);
        assert(points_at(before[k], h));
    }
    new_best(rest, h, p);
}

proof fn all_best_kept(
    rest: Seq<HitView>,
    before: Seq<PointerView>,
    roots: Seq<(&str, &str)>,
    h: HitView,
)
    requires
        distinct_files(before),
        all_best(rest, before),
        all_pointed_at(rest, before),
    ensures
        all_best(rest.push(h), with_hit(before, roots, h)),
{
    let out = with_hit(before, roots, h);
    pointer_at_bounds(before, h, 0);
    assert forall|i: int| 0 <= i < out.len() implies clears_threshold((#[trigger] out[i]).cosine)
        && is_best(rest.push(h), out[i]) by {
        if i < before.len() {
            old_pointer_stays_best(rest, before, roots, h, i);
        } else {
            new_pointer_is_best(rest, before, roots, h);
        }
    }
}

/// The pointers of a list of hits: one per file, each as good as the best hit of its
/// file that clears the threshold, and one for every file with such a hit.
pub proof fn one_pointer_per_file_at_its_best(hits: Seq<HitView>, roots: Seq<(&str, &str)>)
    ensures
        distinct_files(consolidated(hits, roots)),
        all_best(hits, consolidated(hits, roots)),
        all_pointed_at(hits, consolidated(hits, roots)),
    decreases hits.len(),
{
    if hits.len() > 0 {
        let rest = hits.drop_last();
        let h = hits.last();
        let before = consolidated(rest, roots);
        one_pointer_per_file_at_its_best(rest, roots);
        assert(rest.push(h) =~= hits);
        distinct_files_kept(before, roots, h);
        all_pointed_kept(rest, before, roots, h);
        all_best_kept(rest, before, roots, h);
    }
}

/// A pointer is as good as the best hit of its file that clears the threshold, and shows
/// the heading of such a hit.
pub open spec fn is_best(hits: Seq<HitView>, p: PointerView) -> bool {
    &&& exists|m: int|
        0 <= m < hits.len() && points_at(p, #[trigger] hits[m]) && hits[m].cosine == p.cosine
            && hits[m].heading_path == p.heading_path
    &&& forall|m: int|
        0 <= m < hits.len() && points_at(p, #[trigger] hits[m]) && clears_threshold(hits[m].cosine)
            ==> hits[m].cosine <= p.cosine
}

/// Some pointer is at the file of a hit.
pub open spec fn is_pointed_at(out: Seq<PointerView>, h: HitView) -> bool {
    exists|k: int| 0 <= k < out.len() && points_at(#[trigger] out[k], h)
}

/// Positions in the order of their ranks with one more, behind all those that rank as
/// high.
pub open spec fn ranked_with(list: Seq<int>, ranks: Seq<int>, x: int) -> Seq<int>
    decreases list.len(),
{
    if list.len() == 0 || ranks[list.last()] >= ranks[x] {
        list.push(x)
    } else {
        ranked_with(list.drop_last(), ranks, x).push(list.last())
    }
}

/// The first `n` positions, highest rank first, those of equal rank in order.
pub open spec fn ranked(ranks: Seq<int>, n: int) -> Seq<int>
    decreases n,
{
    if n <= 0 {
        seq![]
    } else {
        ranked_with(ranked(ranks, n - 1), ranks, n - 1)
    }
}

/// The positions of a list, highest rank first, those of equal rank in order.
pub open spec fn by_rank(ranks: Seq<int>) -> Seq<int> {
    ranked(ranks, ranks.len() as int)
}

/// One position stands before another: it ranks higher, or as high and comes first.
pub open spec fn precedes(ranks: Seq<int>, a: int, b: int) -> bool {
    ranks[a] > ranks[b] || (ranks[a] == ranks[b] && a < b)
}

/// The positions stand in strict order.
pub open spec fn in_rank_order(list: Seq<int>, ranks: Seq<int>) -> bool {
    forall|i: int, j: int|
        0 <= i < j < list.len() ==> precedes(ranks, #[trigger] list[i], #[trigger] list[j])
}

proof fn ranked_with_shape(list: Seq<int>, ranks: Seq<int>, x: int)
    requires
        0 <= x,
        in_rank_order(list, ranks),
        forall|i: int| 0 <= i < list.len() ==> 0 <= #[trigger] list[i] < x,
    ensures
        in_rank_order(ranked_with(list, ranks, x), ranks),
        ranked_with(list, ranks, x).len() == list.len() + 1,
        forall|i: int|
            0 <= i < ranked_with(list, ranks, x).len() ==> 0 <= #[trigger] ranked_with(
                list,
                ranks,
                x,
            )[i] <= x,
        forall|y: int| #[trigger]
            ranked_with(list, ranks, x).contains(y) <==> list.contains(y) || y == x,
    decreases list.len(),
{
    let out = ranked_with(list, ranks, x);
    if list.len() == 0 || ranks[list.last()] >= ranks[x] {
        assert forall|i: int, j: int| 0 <= i < j < out.len() implies precedes(
            ranks,
            #[trigger] out[i],
            #[trigger] out[j],
        ) by {
            if j == list.len() {
                if i < list.len() - 1 {
                    assert(precedes(ranks, list[i], list[list.len() - 1]));
                }
            } else {
                assert(precedes(ranks, list[i], list[j]));
            }
        }
        assert forall|y: int| #[trigger] out.contains(y) <==> list.contains(y) || y == x by {
            if list.contains(y) {
                let k = choose|k: int| 0 <= k < list.len() && list[k] == y;
                assert(out[k] == y);
            }
            assert(out[list.len() as int] == x);
            if out.contains(y) {
                let k = choose|k: int| 0 <= k < out.len() && out[k] == y;
                if k < list.len() {
                    assert(list[k] == y);
                }
            }
        }
    } else {
        let rest = list.drop_last();
        let last = list.last();
        assert(in_rank_order(rest, ranks)) by {
            assert forall|i: int, j: int| 0 <= i < j < rest.len() implies precedes(
                ranks,
                #[trigger] rest[i],
                #[trigger] rest[j],
            ) by {
                assert(precedes(ranks, list[i], list[j]));
            }
        }
        assert forall|i: int| 0 <= i < rest.len() implies 0 <= #[trigger] rest[i] < x by {
            assert(rest[i] == list[i]);
        }
        ranked_with_shape(rest, ranks, x);
        let inner = ranked_with(rest, ranks, x);
        assert(list[list.len() - 1] == last);
        assert forall|i: int, j: int| 0 <= i < j < out.len() implies precedes(
            ranks,
            #[trigger] out[i],
            #[trigger] out[j],
        ) by {
            if j == inner.len() {
                assert(out[i] == inner[i]);
                assert(inner.contains(inner[i]));
                if inner[i] != x {
                    let k = choose|k: int| 0 <= k < rest.len() && rest[k] == inner[i];
                    assert(precedes(ranks, list[k], list[list.len() - 1]));
                }
            } else {
                assert(precedes(ranks, inner[i], inner[j]));
            }
        }
        assert forall|y: int| #[trigger] out.contains(y) <==> list.contains(y) || y == x by {
            assert(inner.contains(y) <==> rest.contains(y) || y == x);
            if list.contains(y) {
                let k = choose|k: int| 0 <= k < list.len() && list[k] == y;
                if k < rest.len() {
                    assert(rest[k] == y);
                    let m = choose|m: int| 0 <= m < inner.len() && inner[m] == y;
                    assert(out[m] == y);
                } else {
                    assert(out[inner.len() as int] == y);
                }
            }
            if y == x {
                let m = choose|m: int| 0 <= m < inner.len() && inner[m] == y;
                assert(out[m] == y);
            }
            if out.contains(y) {
                let k = choose|k: int| 0 <= k < out.len() && out[k] == y;
                if k < inner.len() {
                    assert(inner[k] == y);
                    if rest.contains(y) {
                        let m = choose|m: int| 0 <= m < rest.len() && rest[m] == y;
                        assert(list[m] == y);
                    }
                }
            }
        }
    }
    assert forall|i: int| 0 <= i < out.len() implies 0 <= #[trigger] out[i] <= x by {
        assert(out.contains(out[i]));
        if out[i] != x {
            let k = choose|k: int| 0 <= k < list.len() && list[k] == out[i];
            assert(0 <= list[k] < x);
        }
    }
}

proof fn ranked_shape(ranks: Seq<int>, n: int)
    requires
        0 <= n,
    ensures
        in_rank_order(ranked(ranks, n), ranks),
        ranked(ranks, n).len() == n,
        forall|i: int| 0 <= i < n ==> 0 <= #[trigger] ranked(ranks, n)[i] < n,
        forall|y: int| #[trigger] ranked(ranks, n).contains(y) <==> 0 <= y < n,
    decreases n,
{
    if n > 0 {
        ranked_shape(ranks, n - 1);
        ranked_with_shape(ranked(ranks, n - 1), ranks, n - 1);
        let out = ranked(ranks, n);
        assert forall|y: int| #[trigger] out.contains(y) <==> 0 <= y < n by {
            assert(ranked(ranks, n - 1).contains(y) <==> 0 <= y < n - 1);
        }
    }
}

/// The order by rank is a rearrangement of all the positions: strictly decreasing in
/// rank, and those of equal rank stay in order.
pub proof fn by_rank_is_a_stable_order(ranks: Seq<int>)
    ensures
        in_rank_order(by_rank(ranks), ranks),
        by_rank(ranks).len() == ranks.len(),
        forall|y: int| #[trigger] by_rank(ranks).contains(y) <==> 0 <= y < ranks.len(),
{
    ranked_shape(ranks, ranks.len() as int);
}

/// The integers that a list of positions stands for.
pub open spec fn indexes(v: Seq<usize>) -> Seq<int> {
    v.map_values(|i: usize| i as int)
}

/// The integers that a list of ranks stands for.
pub open spec fn wide(v: Seq<i64>) -> Seq<int> {
    v.map_values(|i: i64| i as int)
}

proof fn ranked_at(list: Seq<int>, ranks: Seq<int>, x: int, k: int)
    requires
        0 <= k <= list.len(),
        k == 0 || ranks[list[k - 1]] >= ranks[x],
        forall|j: int| k <= j < list.len() ==> ranks[#[trigger] list[j]] < ranks[x],
    ensures
        ranked_with(list, ranks, x) == list.insert(k, x),
    decreases list.len() - k,
{
    if k == list.len() {
        assert(list.insert(k, x) =~= list.push(x));
    } else {
        let rest = list.drop_last();
        assert(ranks[list[list.len() - 1]] < ranks[x]);
        assert forall|j: int| k <= j < rest.len() implies ranks[#[trigger] rest[j]] < ranks[x] by {
            assert(rest[j] == list[j]);
        }
        if k > 0 {
            assert(rest[k - 1] == list[k - 1]);
        }
        ranked_at(rest, ranks, x, k);
        assert(list.insert(k, x) =~= rest.insert(k, x).push(list.last()));
    }
}

/// Orders positions by rank, highest first, those of equal rank in order.
fn order_by_rank(ranks: &Vec<i64>) -> (out: Vec<usize>)
    ensures
        indexes(out@) == by_rank(wide(ranks@)),
        forall|i: int| 0 <= i < out@.len() ==> (#[trigger] out@[i]) < ranks@.len(),
        out@.len() == ranks@.len(),
{
    let ghost all = wide(ranks@);
    let mut out: Vec<usize> = Vec::new();
    let mut x: usize = 0;
    proof {
        assert(indexes(out@) =~= seq![]);
    }
    while x < ranks.len()
        invariant
            x <= ranks@.len(),
            all == wide(ranks@),
            indexes(out@) == ranked(all, x as int),
            out@.len() == x,
            forall|i: int| 0 <= i < out@.len() ==> (#[trigger] out@[i]) < x,
        decreases ranks.len() - x,
    {
        let ghost list = indexes(out@);
        let mut k: usize = out.len();
        while k > 0 && ranks[out[k - 1]] < ranks[x]
            invariant
                k <= out@.len(),
                x < ranks@.len(),
                all == wide(ranks@),
                list == indexes(out@),
                forall|i: int| 0 <= i < out@.len() ==> (#[trigger] out@[i]) < x,
                forall|j: int| k <= j < list.len() ==> all[#[trigger] list[j]] < all[x as int],
            decreases k,
        {
            proof {
                assert(list[k - 1] == out@[k - 1]);
            }
            k -= 1;
        }
        proof {
            if k > 0 {
                assert(list[k - 1] == out@[k - 1]);
            }
            ranked_at(list, all, x as int, k as int);
        }
        let ghost before = out@;
        out.insert(k, x);
        x += 1;
        proof {
            assert(indexes(out@) =~= list.insert(k as int, x - 1));
            assert forall|i: int| 0 <= i < out@.len() implies (#[trigger] out@[i]) < x by {
                if i < k {
                    assert(out@[i] == before[i]);
                } else if i > k {
                    assert(out@[i] == before[i - 1]);
                }
            }
        }
    }
    out
}

/// The ranks of a list of hits.
pub open spec fn hit_ranks(hits: Seq<HitView>) -> Seq<int> {
    hits.map_values(|h: HitView| rank(h.cosine))
}

/// Two hits are the same chunk.
pub open spec fn same_chunk(a: HitView, b: HitView) -> bool {
    a.source_type == b.source_type && a.rel_path == b.rel_path && a.text == b.text
}

/// Some hit of a list is the same chunk.
pub open spec fn holds_chunk(list: Seq<HitView>, h: HitView) -> bool {
    exists|i: int| 0 <= i < list.len() && same_chunk(#[trigger] list[i], h)
}

/// The hits of a list without those that repeat a chunk.
pub open spec fn without_repeats(list: Seq<HitView>) -> Seq<HitView>
    decreases list.len(),
{
    if list.len() == 0 {
        seq![]
    } else {
        let before = without_repeats(list.drop_last());
        if holds_chunk(before, list.last()) {
            before
        } else {
            before.push(list.last())
        }
    }
}

/// The hits of a list, strongest first.
pub open spec fn strongest_first(hits: Seq<HitView>) -> Seq<HitView> {
    by_rank(hit_ranks(hits)).map_values(|i: int| hits[i])
}

/// The `k` best distinct chunks.
pub open spec fn best_of(hits: Seq<HitView>, k: nat) -> Seq<HitView> {
    let all = without_repeats(strongest_first(hits));
    all.take(
        if k < all.len() {
            k as int
        } else {
            all.len() as int
        },
    )
}

fn ranks_of_hits(hits: &Vec<Hit>) -> (out: Vec<i64>)
    ensures
        wide(out@) == hit_ranks(hit_views(hits@)),
        out@.len() == hits@.len(),
{
    let mut out: Vec<i64> = Vec::new();
    let mut i: usize = 0;
    while i < hits.len()
        invariant
            i <= hits@.len(),
            out@.len() == i,
            forall|j: int| 0 <= j < i ==> (#[trigger] out@[j]) == rank(hits@[j].cosine),
        decreases hits.len() - i,
    {
        out.push(rank_of(hits[i].cosine));
        i += 1;
    }
    proof {
        assert(wide(out@) =~= hit_ranks(hit_views(hits@)));
    }
    out
}

/// Reduces the hits of all the units of a query to the `k` that the caller asked for.
///
/// Deliberately not [`consolidate`]: this path hands back chunk bodies, so two chunks
/// of one file are two distinct answers and both may stand. What cannot stand is the
/// *same* chunk repeated, which a split query produces the moment one chunk matches
/// more than one unit. There is no threshold here either: that is the hook's policy, and a
/// caller asking for `k` wants `k`.
pub fn best_k(hits: &Vec<Hit>, k: usize) -> (out: Vec<Hit>)
    ensures
        hit_views(out@) == best_of(hit_views(hits@), k as nat),
{
    let ghost all = hit_views(hits@);
    let order = order_by_rank(&ranks_of_hits(hits));
    let ghost list = strongest_first(all);
    let mut out: Vec<Hit> = Vec::new();
    let mut i: usize = 0;
    proof {
        by_rank_is_a_stable_order(hit_ranks(all));
        assert(indexes(order@).len() == order@.len());
        assert(list.take(0) =~= seq![]);
        assert(hit_views(out@) =~= seq![]);
    }
    while i < order.len()
        invariant
            i <= order@.len(),
            all == hit_views(hits@),
            list == strongest_first(all),
            order@.len() == hits@.len(),
            indexes(order@) == by_rank(hit_ranks(all)),
            forall|m: int| 0 <= m < order@.len() ==> (#[trigger] order@[m]) < hits@.len(),
            hit_views(out@) == without_repeats(list.take(i as int)),
        decreases order.len() - i,
    {
        let h = &hits[order[i]];
        let ghost kept = hit_views(out@);
        proof {
            assert(indexes(order@)[i as int] == order@[i as int]);
            assert(all[order@[i as int] as int] == h@);
            assert(list[i as int] == h@);
            assert(list.take(i + 1).drop_last() =~= list.take(i as int));
        }
        i += 1;
        let mut seen = false;
        let mut j: usize = 0;
        while j < out.len() && !seen
            invariant
                j <= out@.len(),
                kept == hit_views(out@),
                seen ==> holds_chunk(kept, h@),
                !seen ==> forall|m: int| 0 <= m < j ==> !same_chunk(#[trigger] kept[m], h@),
            decreases out.len() - j + (if seen {
                0int
            } else {
                1
            }),
        {
            proof {
                assert(kept[j as int] == out@[j as int]@);
            }
            if same_str(out[j].source_type.as_str(), h.source_type.as_str()) && same_str(
                out[j].rel_path.as_str(),
                h.rel_path.as_str(),
            ) && same_str(out[j].text.as_str(), h.text.as_str()) {
                proof {
                    assert(same_chunk(kept[j as int], h@));
                }
                seen = true;
            } else {
                j += 1;
            }
        }
        if !seen {
            proof {
                assert(kept.len() == out@.len());
            }
            out.push(h.copy());
            proof {
                assert(hit_views(out@) =~= kept.push(h@));
            }
        }
    }
    proof {
        assert(list.take(i as int) =~= list);
    }
    let ghost distinct = hit_views(out@);
    out.truncate(k);
    proof {
        assert(hit_views(out@) =~= best_of(all, k as nat));
    }
    out
}

/// The texts of a list of pointers, by their ranks.
pub open spec fn pointer_ranks(pointers: Seq<PointerView>) -> Seq<int> {
    pointers.map_values(|p: PointerView| rank(p.cosine))
}

/// Pointers, strongest first.
pub open spec fn pointers_by_rank(pointers: Seq<PointerView>) -> Seq<PointerView> {
    by_rank(pointer_ranks(pointers)).map_values(|i: int| pointers[i])
}

/// The first group at or after position `i` that holds pointers of a root.
pub open spec fn group_at(groups: Seq<Seq<PointerView>>, label: Seq<char>, i: int) -> Option<int>
    decreases groups.len() - i,
{
    if i < 0 || i >= groups.len() {
        None
    } else if groups[i].len() > 0 && groups[i][0].source_type == label {
        Some(i)
    } else {
        group_at(groups, label, i + 1)
    }
}

/// Pointers grouped by their root, in the order in which the roots appear.
pub open spec fn grouped(list: Seq<PointerView>) -> Seq<Seq<PointerView>>
    decreases list.len(),
{
    if list.len() == 0 {
        seq![]
    } else {
        let before = grouped(list.drop_last());
        let p = list.last();
        match group_at(before, p.source_type, 0) {
            Some(i) => before.update(i, before[i].push(p)),
            None => before.push(seq![p]),
        }
    }
}

/// What the first `n` groups give in a round: each the pointer at its position, where
/// it has one.
pub open spec fn round_of(groups: Seq<Seq<PointerView>>, round: int, n: int) -> Seq<PointerView>
    decreases n,
{
    if n <= 0 {
        seq![]
    } else if round < groups[n - 1].len() {
        round_of(groups, round, n - 1).push(groups[n - 1][round])
    } else {
        round_of(groups, round, n - 1)
    }
}

/// What the groups give in the first `rounds` rounds.
pub open spec fn rounds_of(groups: Seq<Seq<PointerView>>, rounds: int) -> Seq<PointerView>
    decreases rounds,
{
    if rounds <= 0 {
        seq![]
    } else {
        rounds_of(groups, rounds - 1) + round_of(groups, rounds - 1, groups.len() as int)
    }
}

/// The size of the largest among the first `n` groups.
pub open spec fn deepest(groups: Seq<Seq<PointerView>>, n: int) -> int
    decreases n,
{
    if n <= 0 {
        0
    } else if deepest(groups, n - 1) >= groups[n - 1].len() {
        deepest(groups, n - 1)
    } else {
        groups[n - 1].len() as int
    }
}

/// All the pointers in the order in which the roots take turns.
pub open spec fn in_turns(pointers: Seq<PointerView>) -> Seq<PointerView> {
    let groups = grouped(pointers_by_rank(pointers));
    rounds_of(groups, deepest(groups, groups.len() as int))
}

/// The first `limit` pointers of those, or all of them.
pub open spec fn round_robin(pointers: Seq<PointerView>, limit: nat) -> Seq<PointerView> {
    let all = in_turns(pointers);
    all.take(
        if limit < all.len() {
            limit as int
        } else {
            all.len() as int
        },
    )
}

/// The texts of a list of groups.
spec fn group_views(groups: Seq<Vec<Pointer>>) -> Seq<Seq<PointerView>> {
    groups.map_values(|g: Vec<Pointer>| pointer_views(g@))
}

fn ranks_of_pointers(pointers: &Vec<Pointer>) -> (out: Vec<i64>)
    ensures
        wide(out@) == pointer_ranks(pointer_views(pointers@)),
        out@.len() == pointers@.len(),
{
    let mut out: Vec<i64> = Vec::new();
    let mut i: usize = 0;
    while i < pointers.len()
        invariant
            i <= pointers@.len(),
            out@.len() == i,
            forall|j: int| 0 <= j < i ==> (#[trigger] out@[j]) == rank(pointers@[j].cosine),
        decreases pointers.len() - i,
    {
        out.push(rank_of(pointers[i].cosine));
        i += 1;
    }
    proof {
        assert(wide(out@) =~= pointer_ranks(pointer_views(pointers@)));
    }
    out
}

/// Groups pointers by their root, strongest first.
fn group_by_root(pointers: &Vec<Pointer>) -> (out: Vec<Vec<Pointer>>)
    ensures
        group_views(out@) == grouped(pointers_by_rank(pointer_views(pointers@))),
{
    let ghost all = pointer_views(pointers@);
    let order = order_by_rank(&ranks_of_pointers(pointers));
    let ghost list = pointers_by_rank(all);
    let mut out: Vec<Vec<Pointer>> = Vec::new();
    let mut i: usize = 0;
    proof {
        assert(list.take(0) =~= seq![]);
        assert(group_views(out@) =~= seq![]);
    }
    while i < order.len()
        invariant
            i <= order@.len(),
            all == pointer_views(pointers@),
            list == pointers_by_rank(all),
            indexes(order@) == by_rank(pointer_ranks(all)),
            forall|m: int| 0 <= m < order@.len() ==> (#[trigger] order@[m]) < pointers@.len(),
            group_views(out@) == grouped(list.take(i as int)),
        decreases order.len() - i,
    {
        let p = &pointers[order[i]];
        let ghost groups = group_views(out@);
        proof {
            assert(indexes(order@)[i as int] == order@[i as int]);
            assert(all[order@[i as int] as int] == p@);
            assert(list[i as int] == p@);
            assert(list.take(i + 1).drop_last() =~= list.take(i as int));
        }
        i += 1;
        let mut k: usize = 0;
        let mut found = false;
        while k < out.len() && !found
            invariant
                k <= out@.len(),
                groups == group_views(out@),
                group_at(groups, p@.source_type, 0) == group_at(
                    groups,
                    p@.source_type,
                    k as int,
                ),
                found ==> k < out@.len() && group_at(groups, p@.source_type, 0) == Some(
                    k as int,
                ),
            decreases out.len() - k + (if found {
                0int
            } else {
                1
            }),
        {
            proof {
                assert(groups[k as int] == pointer_views(out@[k as int]@));
                assert(groups[k as int].len() == out@[k as int]@.len());
                if out@[k as int]@.len() > 0 {
                    assert(groups[k as int][0] == out@[k as int]@[0]@);
                }
            }
            if out[k].len() > 0 && same_str(
                out[k][0].source_type.as_str(),
                p.source_type.as_str(),
            ) {
                found = true;
            } else {
                k += 1;
            }
        }
        if found {
            let ghost before = out@[k as int]@;
            out[k].push(p.copy());
            proof {
                assert(pointer_views(out@[k as int]@) =~= pointer_views(before).push(p@));
                assert(group_views(out@) =~= groups.update(
                    k as int,
                    groups[k as int].push(p@),
                ));
            }
        } else {
            let mut g: Vec<Pointer> = Vec::new();
            g.push(p.copy());
            let ghost made = pointer_views(g@);
            out.push(g);
            proof {
                assert(made =~= seq![p@]);
                assert(group_views(out@) =~= groups.push(made));
            }
        }
    }
    proof {
        by_rank_is_a_stable_order(pointer_ranks(all));
        assert(indexes(order@).len() == order@.len());
        assert(list.take(i as int) =~= list);
    }
    out
}

proof fn rounds_grow(groups: Seq<Seq<PointerView>>, a: int, b: int)
    requires
        0 <= a <= b,
    ensures
        rounds_of(groups, a).is_prefix_of(rounds_of(groups, b)),
    decreases b,
{
    if a < b {
        rounds_grow(groups, a, b - 1);
        let x = rounds_of(groups, a);
        let y = rounds_of(groups, b - 1);
        let z = rounds_of(groups, b);
        assert(x =~= z.subrange(0, x.len() as int)) by {
            assert forall|i: int| 0 <= i < x.len() implies x[i] == z[i] by {
                assert(y.subrange(0, x.len() as int)[i] == y[i]);
            }
        }
    } else {
        assert(rounds_of(groups, a) =~= rounds_of(groups, b).subrange(
            0,
            rounds_of(groups, a).len() as int,
        ));
    }
}

proof fn round_grows(groups: Seq<Seq<PointerView>>, round: int, a: int, b: int)
    requires
        0 <= a <= b,
    ensures
        round_of(groups, round, a).is_prefix_of(round_of(groups, round, b)),
    decreases b,
{
    let x = round_of(groups, round, a);
    let z = round_of(groups, round, b);
    if a < b {
        round_grows(groups, round, a, b - 1);
        let y = round_of(groups, round, b - 1);
        assert(x =~= z.subrange(0, x.len() as int)) by {
            assert forall|i: int| 0 <= i < x.len() implies x[i] == z[i] by {
                assert(y.subrange(0, x.len() as int)[i] == y[i]);
            }
        }
    } else {
        assert(x =~= z.subrange(0, x.len() as int));
    }
}

/// Takes up to `limit` pointers, cycling through roots so one cannot take every slot
/// while another has hits above the threshold.
///
/// Within a root the order stays by cosine, and a root that is the only one with hits
/// still fills the block. This bounds crowding rather than solving it.
///
/// Roots take turns in the order of their first appearance, so best-first: the same
/// prompt renders the same block on each run.
pub fn take_round_robin(pointers: &Vec<Pointer>, limit: usize) -> (out: Vec<Pointer>)
    ensures
        pointer_views(out@) == round_robin(pointer_views(pointers@), limit as nat),
{
    let groups = group_by_root(pointers);
    let ghost views = grouped(pointers_by_rank(pointer_views(pointers@)));
    let n: usize = groups.len();
    let mut depth: usize = 0;
    let mut g: usize = 0;
    proof {
        assert(views.len() == n);
    }
    while g < n
        invariant
            g <= n,
            n == groups@.len(),
            views == group_views(groups@),
            depth == deepest(views, g as int),
        decreases n - g,
    {
        proof {
            assert(views[g as int].len() == groups@[g as int]@.len());
        }
        if groups[g].len() > depth {
            depth = groups[g].len();
        }
        g += 1;
    }
    let ghost all = rounds_of(views, depth as int);
    let mut picked: Vec<Pointer> = Vec::new();
    let mut round: usize = 0;
    proof {
        assert(pointer_views(picked@) =~= seq![]);
    }
    while round < depth
        invariant
            round <= depth,
            n == groups@.len(),
            n == views.len(),
            views == group_views(groups@),
            views == grouped(pointers_by_rank(pointer_views(pointers@))),
            depth == deepest(views, n as int),
            all == rounds_of(views, depth as int),
            pointer_views(picked@) == rounds_of(views, round as int),
            picked@.len() <= limit,
        decreases depth - round,
    {
        let mut k: usize = 0;
        proof {
            assert(rounds_of(views, round as int) + round_of(views, round as int, 0) =~= rounds_of(
                views,
                round as int,
            ));
        }
        while k < n
            invariant
                k <= n,
                round < depth,
                n == groups@.len(),
                n == views.len(),
                views == group_views(groups@),
                views == grouped(pointers_by_rank(pointer_views(pointers@))),
                depth == deepest(views, n as int),
                all == rounds_of(views, depth as int),
                pointer_views(picked@) == rounds_of(views, round as int) + round_of(
                    views,
                    round as int,
                    k as int,
                ),
                picked@.len() <= limit,
            decreases n - k,
        {
            if picked.len() == limit {
                proof {
                    let so_far = pointer_views(picked@);
                    round_grows(views, round as int, k as int, n as int);
                    rounds_grow(views, round + 1, depth as int);
                    let whole = rounds_of(views, round + 1);
                    let part = round_of(views, round as int, k as int);
                    let full = round_of(views, round as int, n as int);
                    assert(so_far =~= whole.take(so_far.len() as int)) by {
                        assert forall|i: int| 0 <= i < so_far.len() implies so_far[i]
                            == whole[i] by {
                            let base = rounds_of(views, round as int).len();
                            if i >= base {
                                assert(full.subrange(0, part.len() as int)[i - base] == full[i
                                    - base]);
                            }
                        }
                    }
                    assert(whole =~= all.subrange(0, whole.len() as int));
                    assert(so_far.len() == limit);
                    assert(so_far.len() <= whole.len());
                    assert(so_far =~= all.take(limit as int));
                    assert(round_robin(pointer_views(pointers@), limit as nat) =~= so_far);
                }
                return picked;
            }
            proof {
                assert(views[k as int].len() == groups@[k as int]@.len());
            }
            if round < groups[k].len() {
                let ghost before = picked@;
                let p = groups[k][round].copy();
                let ghost v = p@;
                picked.push(p);
                proof {
                    assert(views[k as int][round as int] == v);
                    assert(pointer_views(picked@) =~= pointer_views(before).push(v));
                    assert(rounds_of(views, round as int) + round_of(
                        views,
                        round as int,
                        k + 1,
                    ) =~= (rounds_of(views, round as int) + round_of(
                        views,
                        round as int,
                        k as int,
                    )).push(v));
                }
            }
            k += 1;
        }
        round += 1;
    }
    proof {
        assert(pointer_views(picked@) == all);
        assert(all.len() == picked@.len());
        assert(round_robin(pointer_views(pointers@), limit as nat) =~= all);
    }
    picked
}

/// The bits of the strongest cosine among the hits.
pub open spec fn top_of(hits: Seq<HitView>) -> Option<u32>
    decreases hits.len(),
{
    if hits.len() == 0 {
        None
    } else {
        match top_of(hits.drop_last()) {
            Some(best) if rank(best) > rank(hits.last().cosine) => Some(best),
            _ => Some(hits.last().cosine),
        }
    }
}

/// The strongest cosine among the hits, before the threshold.
pub fn top_cosine(hits: &Vec<Hit>) -> (out: Option<u32>)
    ensures
        out == top_of(hit_views(hits@)),
{
    let ghost all = hit_views(hits@);
    let mut best: Option<u32> = None;
    let mut i: usize = 0;
    proof {
        assert(all.take(0) =~= seq![]);
    }
    while i < hits.len()
        invariant
            i <= hits@.len(),
            all == hit_views(hits@),
            best == top_of(all.take(i as int)),
        decreases hits.len() - i,
    {
        proof {
            assert(all[i as int] == hits@[i as int]@);
            assert(all.take(i + 1).drop_last() =~= all.take(i as int));
        }
        let bits: u32 = hits[i].cosine;
        best = match best {
            Some(b) => if rank_of(b) > rank_of(bits) {
                Some(b)
            } else {
                Some(bits)
            },
            None => Some(bits),
        };
        i += 1;
    }
    proof {
        assert(all.take(i as int) =~= all);
    }
    best
}

/// The ranks fall from one hit to the next, or stay.
pub open spec fn falling(list: Seq<HitView>) -> bool {
    forall|i: int, j: int|
        0 <= i < j < list.len() ==> rank((#[trigger] list[i]).cosine) >= rank(
            (#[trigger] list[j]).cosine,
        )
}

/// No chunk stands twice in a list.
pub open spec fn distinct_chunks(list: Seq<HitView>) -> bool {
    forall|i: int, j: int|
        0 <= i < j < list.len() ==> !same_chunk(#[trigger] list[i], #[trigger] list[j])
}

/// No hit of the same chunk is stronger.
pub open spec fn best_of_its_chunk(list: Seq<HitView>, h: HitView) -> bool {
    forall|m: int|
        0 <= m < list.len() && same_chunk(h, #[trigger] list[m]) ==> rank(list[m].cosine) <= rank(
            h.cosine,
        )
}

proof fn repeats_are_held(list: Seq<HitView>)
    ensures
        forall|m: int|
            0 <= m < list.len() ==> holds_chunk(without_repeats(list), #[trigger] list[m]),
    decreases list.len(),
{
    if list.len() > 0 {
        let rest = list.drop_last();
        let h = list.last();
        let before = without_repeats(rest);
        let out = without_repeats(list);
        repeats_are_held(rest);
        assert forall|m: int| 0 <= m < list.len() implies holds_chunk(
            out,
            #[trigger] list[m],
        ) by {
            if m < rest.len() {
                assert(rest[m] == list[m]);
                let i = choose|i: int|
                    0 <= i < before.len() && same_chunk(#[trigger] before[i], rest[m]);
                assert(out[i] == before[i]);
            } else if !holds_chunk(before, h) {
                assert(same_chunk(out[before.len() as int], h));
            }
        }
    }
}

proof fn kept_come_from_the_list(list: Seq<HitView>)
    ensures
        forall|i: int|
            0 <= i < without_repeats(list).len() ==> list.contains(
                #[trigger] without_repeats(list)[i],
            ),
    decreases list.len(),
{
    if list.len() > 0 {
        let rest = list.drop_last();
        let before = without_repeats(rest);
        let out = without_repeats(list);
        kept_come_from_the_list(rest);
        assert forall|i: int| 0 <= i < out.len() implies list.contains(#[trigger] out[i]) by {
            if i < before.len() {
                assert(rest.contains(before[i]));
                let k = choose|k: int| 0 <= k < rest.len() && rest[k] == before[i];
                assert(list[k] == out[i]);
            } else {
                assert(list[list.len() - 1] == out[i]);
            }
        }
    }
}

proof fn kept_are_distinct(list: Seq<HitView>)
    ensures
        distinct_chunks(without_repeats(list)),
    decreases list.len(),
{
    if list.len() > 0 {
        let before = without_repeats(list.drop_last());
        let out = without_repeats(list);
        kept_are_distinct(list.drop_last());
        assert forall|i: int, j: int| 0 <= i < j < out.len() implies !same_chunk(
            #[trigger] out[i],
            #[trigger] out[j],
        ) by {
            if j < before.len() {
                assert(!same_chunk(before[i], before[j]));
            } else {
                assert(!same_chunk(before[i], list.last()));
            }
        }
    }
}

proof fn falling_rest(list: Seq<HitView>)
    requires
        falling(list),
        list.len() > 0,
    ensures
        falling(list.drop_last()),
        forall|m: int|
            0 <= m < list.len() ==> rank((#[trigger] list[m]).cosine) >= rank(list.last().cosine),
{
    let rest = list.drop_last();
    assert forall|i: int, j: int| 0 <= i < j < rest.len() implies rank((#[trigger] rest[i]).cosine)
        >= rank((#[trigger] rest[j]).cosine) by {
        assert(rest[i] == list[i] && rest[j] == list[j]);
    }
    assert forall|m: int| 0 <= m < list.len() implies rank((#[trigger] list[m]).cosine) >= rank(
        list.last().cosine,
    ) by {
        if m < list.len() - 1 {
            assert(rank(list[m].cosine) >= rank(list[list.len() - 1].cosine));
        }
    }
}

proof fn kept_fall(list: Seq<HitView>)
    requires
        falling(list),
    ensures
        falling(without_repeats(list)),
    decreases list.len(),
{
    if list.len() > 0 {
        let rest = list.drop_last();
        let before = without_repeats(rest);
        let out = without_repeats(list);
        falling_rest(list);
        kept_fall(rest);
        kept_come_from_the_list(rest);
        assert forall|i: int, j: int| 0 <= i < j < out.len() implies rank(
            (#[trigger] out[i]).cosine,
        ) >= rank((#[trigger] out[j]).cosine) by {
            assert(rest.contains(before[i]));
            let k = choose|k: int| 0 <= k < rest.len() && rest[k] == before[i];
            assert(list[k] == before[i]);
            if j < before.len() {
                assert(rank(before[i].cosine) >= rank(before[j].cosine));
            }
        }
    }
}

proof fn kept_are_best(list: Seq<HitView>, i: int)
    requires
        falling(list),
        0 <= i < without_repeats(list).len(),
    ensures
        best_of_its_chunk(list, without_repeats(list)[i]),
    decreases list.len(),
{
    let rest = list.drop_last();
    let h = list.last();
    let before = without_repeats(rest);
    let kept = without_repeats(list)[i];
    falling_rest(list);
    assert forall|m: int| 0 <= m < list.len() && same_chunk(kept, #[trigger] list[m]) implies rank(
        list[m].cosine,
    ) <= rank(kept.cosine) by {
        if i < before.len() {
            kept_are_best(rest, i);
            kept_come_from_the_list(rest);
            if m < rest.len() {
                assert(rest[m] == list[m]);
            } else {
                assert(rest.contains(before[i]));
                let k = choose|k: int| 0 <= k < rest.len() && rest[k] == before[i];
                assert(list[k] == kept);
            }
        } else if m < rest.len() {
            repeats_are_held(rest);
            assert(rest[m] == list[m]);
            let k = choose|k: int|
                0 <= k < before.len() && same_chunk(#[trigger] before[k], rest[m]);
            assert(same_chunk(before[k], h));
        }
    }
}

proof fn without_repeats_shape(list: Seq<HitView>)
    requires
        falling(list),
    ensures
        falling(without_repeats(list)),
        distinct_chunks(without_repeats(list)),
        forall|i: int|
            0 <= i < without_repeats(list).len() ==> list.contains(
                #[trigger] without_repeats(list)[i],
            ) && best_of_its_chunk(list, without_repeats(list)[i]),
        forall|m: int|
            0 <= m < list.len() ==> holds_chunk(without_repeats(list), #[trigger] list[m]),
{
    repeats_are_held(list);
    kept_come_from_the_list(list);
    kept_are_distinct(list);
    kept_fall(list);
    assert forall|i: int| 0 <= i < without_repeats(list).len() implies best_of_its_chunk(
        list,
        #[trigger] without_repeats(list)[i],
    ) by {
        kept_are_best(list, i);
    }
}

proof fn strongest_first_falls(hits: Seq<HitView>)
    ensures
        falling(strongest_first(hits)),
        strongest_first(hits).len() == hits.len(),
        forall|m: int| 0 <= m < hits.len() ==> strongest_first(hits).contains(#[trigger] hits[m]),
        forall|m: int|
            0 <= m < hits.len() ==> hits.contains(#[trigger] strongest_first(hits)[m]),
{
    let ranks = hit_ranks(hits);
    let order = by_rank(ranks);
    by_rank_is_a_stable_order(ranks);
    let list = strongest_first(hits);
    assert forall|i: int| 0 <= i < order.len() implies 0 <= #[trigger] order[i] < hits.len() by {
        assert(order.contains(order[i]));
    }
    assert forall|i: int, j: int| 0 <= i < j < list.len() implies rank(
        (#[trigger] list[i]).cosine,
    ) >= rank((#[trigger] list[j]).cosine) by {
        assert(precedes(ranks, order[i], order[j]));
    }
    assert forall|m: int| 0 <= m < hits.len() implies list.contains(#[trigger] hits[m]) by {
        assert(order.contains(m));
        let k = choose|k: int| 0 <= k < order.len() && order[k] == m;
        assert(list[k] == hits[m]);
    }
    assert forall|m: int| 0 <= m < hits.len() implies hits.contains(#[trigger] list[m]) by {
        assert(list[m] == hits[order[m]]);
    }
}

/// The `k` best: at most `k` distinct chunks of those found, strongest first, each with
/// its best cosine; and where there are fewer than `k`, no chunk that was found is
/// missing.
#[verifier::rlimit(30)]
pub proof fn the_best_are_distinct_and_strongest_first(hits: Seq<HitView>, k: nat)
    ensures
        best_of(hits, k).len() <= k,
        falling(best_of(hits, k)),
        distinct_chunks(best_of(hits, k)),
        forall|i: int|
            0 <= i < best_of(hits, k).len() ==> hits.contains(#[trigger] best_of(hits, k)[i])
                && best_of_its_chunk(hits, best_of(hits, k)[i]),
        best_of(hits, k).len() < k ==> forall|m: int|
            0 <= m < hits.len() ==> holds_chunk(best_of(hits, k), #[trigger] hits[m]),
{
    let list = strongest_first(hits);
    strongest_first_falls(hits);
    without_repeats_shape(list);
    let all = without_repeats(list);
    let out = best_of(hits, k);
    assert forall|i: int, j: int| 0 <= i < j < out.len() implies rank((#[trigger] out[i]).cosine)
        >= rank((#[trigger] out[j]).cosine) by {
        assert(out[i] == all[i] && out[j] == all[j]);
    }
    assert forall|i: int, j: int| 0 <= i < j < out.len() implies !same_chunk(
        #[trigger] out[i],
        #[trigger] out[j],
    ) by {
        assert(out[i] == all[i] && out[j] == all[j]);
    }
    assert forall|i: int| 0 <= i < out.len() implies hits.contains(#[trigger] out[i])
        && best_of_its_chunk(hits, out[i]) by {
        assert(out[i] == all[i]);
        assert(list.contains(all[i]));
        let m = choose|m: int| 0 <= m < list.len() && list[m] == all[i];
        assert(hits.contains(list[m]));
        assert forall|n: int| 0 <= n < hits.len() && same_chunk(out[i], #[trigger] hits[n]) implies rank(
            hits[n].cosine,
        ) <= rank(out[i].cosine) by {
            assert(list.contains(hits[n]));
            let q = choose|q: int| 0 <= q < list.len() && list[q] == hits[n];
            assert(best_of_its_chunk(list, all[i]));
            assert(same_chunk(all[i], list[q]));
        }
    }
    if out.len() < k {
        assert(out =~= all);
        assert forall|m: int| 0 <= m < hits.len() implies holds_chunk(out, #[trigger] hits[m]) by {
            assert(list.contains(hits[m]));
            let q = choose|q: int| 0 <= q < list.len() && list[q] == hits[m];
            assert(holds_chunk(all, list[q]));
        }
    }
}

/// Every group is of one root, no two are of the same, and none is empty.
pub open spec fn one_root_each(groups: Seq<Seq<PointerView>>) -> bool {
    &&& forall|g: int| 0 <= g < groups.len() ==> (#[trigger] groups[g]).len() > 0
    &&& forall|g: int, i: int|
        0 <= g < groups.len() && 0 <= i < groups[g].len() ==> (
        #[trigger] groups[g][i]).source_type == groups[g][0].source_type
    &&& forall|g: int, h: int|
        0 <= g < h < groups.len() ==> (#[trigger] groups[g])[0].source_type != (
        #[trigger] groups[h])[0].source_type
}

proof fn group_at_bounds(groups: Seq<Seq<PointerView>>, label: Seq<char>, i: int)
    requires
        0 <= i,
    ensures
        group_at(groups, label, i) matches Some(k) ==> i <= k < groups.len() && groups[k].len() > 0
            && groups[k][0].source_type == label,
        group_at(groups, label, i) is None ==> forall|j: int|
            i <= j < groups.len() && (#[trigger] groups[j]).len() > 0 ==> groups[j][0].source_type
                != label,
    decreases groups.len() - i,
{
    if i < groups.len() && !(groups[i].len() > 0 && groups[i][0].source_type == label) {
        group_at_bounds(groups, label, i + 1);
    }
}

/// How many pointers the first `n` groups hold, counting at most `r` of each.
spec fn counted(groups: Seq<Seq<PointerView>>, n: int, r: int) -> int
    decreases n,
{
    if n <= 0 {
        0
    } else {
        counted(groups, n - 1, r) + if groups[n - 1].len() < r {
            groups[n - 1].len() as int
        } else {
            r
        }
    }
}

proof fn round_count(groups: Seq<Seq<PointerView>>, r: int, n: int)
    requires
        0 <= r,
        0 <= n,
    ensures
        round_of(groups, r, n).len() == counted(groups, n, r + 1) - counted(groups, n, r),
    decreases n,
{
    if n > 0 {
        round_count(groups, r, n - 1);
    }
}

proof fn rounds_count(groups: Seq<Seq<PointerView>>, r: int)
    requires
        0 <= r,
    ensures
        rounds_of(groups, r).len() == counted(groups, groups.len() as int, r),
    decreases r,
{
    if r > 0 {
        rounds_count(groups, r - 1);
        round_count(groups, r - 1, groups.len() as int);
    } else {
        counted_none(groups, groups.len() as int);
    }
}

proof fn counted_none(groups: Seq<Seq<PointerView>>, n: int)
    ensures
        counted(groups, n, 0) == 0,
    decreases n,
{
    if n > 0 {
        counted_none(groups, n - 1);
    }
}

/// How many pointers the first `n` groups hold.
spec fn total(groups: Seq<Seq<PointerView>>, n: int) -> int
    decreases n,
{
    if n <= 0 {
        0
    } else {
        total(groups, n - 1) + groups[n - 1].len()
    }
}

proof fn deepest_bounds(groups: Seq<Seq<PointerView>>, n: int)
    requires
        0 <= n,
    ensures
        0 <= deepest(groups, n),
        forall|g: int| 0 <= g < n ==> (#[trigger] groups[g]).len() <= deepest(groups, n),
    decreases n,
{
    if n > 0 {
        deepest_bounds(groups, n - 1);
    }
}

proof fn counted_all(groups: Seq<Seq<PointerView>>, n: int, r: int)
    requires
        0 <= n,
        forall|g: int| 0 <= g < n ==> (#[trigger] groups[g]).len() <= r,
    ensures
        counted(groups, n, r) == total(groups, n),
    decreases n,
{
    if n > 0 {
        counted_all(groups, n - 1, r);
        assert(groups[n - 1].len() <= r);
    }
}

proof fn total_update(groups: Seq<Seq<PointerView>>, k: int, g: Seq<PointerView>, n: int)
    requires
        0 <= n <= groups.len(),
        0 <= k < groups.len(),
    ensures
        total(groups.update(k, g), n) == total(groups, n) + if k < n {
            g.len() - groups[k].len()
        } else {
            0
        },
    decreases n,
{
    if n > 0 {
        total_update(groups, k, g, n - 1);
    }
}

proof fn total_prefix(groups: Seq<Seq<PointerView>>, g: Seq<PointerView>, n: int)
    requires
        0 <= n <= groups.len(),
    ensures
        total(groups.push(g), n) == total(groups, n),
    decreases n,
{
    if n > 0 {
        total_prefix(groups, g, n - 1);
    }
}

proof fn grouped_shape(list: Seq<PointerView>)
    ensures
        one_root_each(grouped(list)),
        total(grouped(list), grouped(list).len() as int) == list.len(),
        list.len() > 0 ==> grouped(list).len() > 0 && grouped(list)[0][0] == list[0],
    decreases list.len(),
{
    if list.len() > 0 {
        let rest = list.drop_last();
        let p = list.last();
        grouped_shape(rest);
        let before = grouped(rest);
        let out = grouped(list);
        group_at_bounds(before, p.source_type, 0);
        match group_at(before, p.source_type, 0) {
            Some(k) => {
                total_update(before, k, before[k].push(p), before.len() as int);
                assert forall|g: int, i: int|
                    0 <= g < out.len() && 0 <= i < out[g].len() implies (
                #[trigger] out[g][i]).source_type == out[g][0].source_type by {
                    if g != k {
                        assert(out[g] == before[g]);
                        assert(before[g][i].source_type == before[g][0].source_type);
                    } else if i < before[k].len() {
                        assert(out[g][i] == before[k][i]);
                        assert(before[k][i].source_type == before[k][0].source_type);
                    }
                }
                assert forall|g: int, h: int| 0 <= g < h < out.len() implies (
                #[trigger] out[g])[0].source_type != (#[trigger] out[h])[0].source_type by {
                    assert(out[g][0] == before[g][0]);
                    assert(out[h][0] == before[h][0]);
                    assert(before[g][0].source_type != before[h][0].source_type);
                }
                assert(rest.len() > 0);
                assert(rest[0] == list[0]);
                assert(out[0][0] == before[0][0]);
            },
            None => {
                total_prefix(before, seq![p], before.len() as int);
                assert forall|g: int, i: int|
                    0 <= g < out.len() && 0 <= i < out[g].len() implies (
                #[trigger] out[g][i]).source_type == out[g][0].source_type by {
                    if g < before.len() {
                        assert(out[g] == before[g]);
                        assert(before[g][i].source_type == before[g][0].source_type);
                    }
                }
                assert forall|g: int, h: int| 0 <= g < h < out.len() implies (
                #[trigger] out[g])[0].source_type != (#[trigger] out[h])[0].source_type by {
                    if h < before.len() {
                        assert(before[g][0].source_type != before[h][0].source_type);
                    } else {
                        assert(before[g].len() > 0);
                    }
                }
                if rest.len() > 0 {
                    assert(rest[0] == list[0]);
                    assert(out[0] == before[0]);
                }
            },
        }
    }
}

proof fn first_round(groups: Seq<Seq<PointerView>>, n: int)
    requires
        0 <= n <= groups.len(),
        forall|g: int| 0 <= g < groups.len() ==> (#[trigger] groups[g]).len() > 0,
    ensures
        round_of(groups, 0, n).len() == n,
        forall|g: int| 0 <= g < n ==> #[trigger] round_of(groups, 0, n)[g] == groups[g][0],
    decreases n,
{
    if n > 0 {
        first_round(groups, n - 1);
        assert(groups[n - 1].len() > 0);
        let out = round_of(groups, 0, n);
        assert forall|g: int| 0 <= g < n implies #[trigger] out[g] == groups[g][0] by {
            if g < n - 1 {
                assert(out[g] == round_of(groups, 0, n - 1)[g]);
            }
        }
    }
}

/// Slots are shared fairly: every slot that can be filled is, the strongest pointer
/// leads, and every root with a pointer gets a slot, in the order of their strongest
/// pointers, before any root gets a second.
pub proof fn every_root_gets_a_slot_before_any_root_gets_a_second(
    pointers: Seq<PointerView>,
    limit: nat,
)
    ensures
        ({
            let out = round_robin(pointers, limit);
            let groups = grouped(pointers_by_rank(pointers));
            &&& out.len() == if limit < pointers.len() {
                limit as int
            } else {
                pointers.len() as int
            }
            &&& one_root_each(groups)
            &&& forall|g: int|
                0 <= g < groups.len() && g < limit ==> #[trigger] out[g] == groups[g][0]
            &&& out.len() > 0 ==> out[0] == pointers_by_rank(pointers)[0]
        }),
{
    let list = pointers_by_rank(pointers);
    let ranks = pointer_ranks(pointers);
    by_rank_is_a_stable_order(ranks);
    let groups = grouped(list);
    let n = groups.len() as int;
    grouped_shape(list);
    deepest_bounds(groups, n);
    let depth = deepest(groups, n);
    rounds_count(groups, depth);
    counted_all(groups, n, depth);
    let all = in_turns(pointers);
    assert(all.len() == pointers.len());
    if n > 0 {
        first_round(groups, n);
        assert(groups[0].len() > 0);
        rounds_grow(groups, 1, depth);
        let one = rounds_of(groups, 1);
        assert(rounds_of(groups, 0) =~= seq![]);
        assert(one =~= round_of(groups, 0, n));
        let out = round_robin(pointers, limit);
        assert forall|g: int| 0 <= g < n && g < limit implies #[trigger] out[g]
            == groups[g][0] by {
            assert(all.subrange(0, one.len() as int)[g] == all[g]);
            assert(out[g] == all[g]);
        }
        if out.len() > 0 {
            assert(out[0] == groups[0][0]);
        }
    }
}

/// The pointers of one root, in order.
pub open spec fn of_root(list: Seq<PointerView>, label: Seq<char>) -> Seq<PointerView>
    decreases list.len(),
{
    if list.len() == 0 {
        seq![]
    } else if list.last().source_type == label {
        of_root(list.drop_last(), label).push(list.last())
    } else {
        of_root(list.drop_last(), label)
    }
}

proof fn of_root_concat(a: Seq<PointerView>, b: Seq<PointerView>, label: Seq<char>)
    ensures
        of_root(a + b, label) == of_root(a, label) + of_root(b, label),
    decreases b.len(),
{
    if b.len() == 0 {
        assert(a + b =~= a);
        assert(of_root(a, label) + of_root(b, label) =~= of_root(a, label));
    } else {
        of_root_concat(a, b.drop_last(), label);
        assert((a + b).drop_last() =~= a + b.drop_last());
        assert(of_root(a + b, label) =~= of_root(a, label) + of_root(b, label));
    }
}

/// The group of a root, where it has one.
spec fn group_of(groups: Seq<Seq<PointerView>>, label: Seq<char>) -> Seq<PointerView> {
    match group_at(groups, label, 0) {
        Some(k) => groups[k],
        None => seq![],
    }
}

/// A root has one group, or none.
proof fn group_of_is(groups: Seq<Seq<PointerView>>, label: Seq<char>, g: int)
    requires
        one_root_each(groups),
        0 <= g < groups.len(),
    ensures
        groups[g][0].source_type == label ==> group_of(groups, label) == groups[g],
        groups[g][0].source_type == label ==> group_at(groups, label, 0) == Some(g),
{
    group_at_bounds(groups, label, 0);
    assert(groups[g].len() > 0);
    if groups[g][0].source_type == label {
        let k = group_at(groups, label, 0)->Some_0;
        assert(groups[k][0].source_type == groups[g][0].source_type);
    }
}

/// The group of a root holds its pointers, in order.
proof fn a_group_is_its_root(list: Seq<PointerView>, label: Seq<char>)
    ensures
        group_of(grouped(list), label) == of_root(list, label),
    decreases list.len(),
{
    if list.len() > 0 {
        let rest = list.drop_last();
        let p = list.last();
        let before = grouped(rest);
        let out = grouped(list);
        a_group_is_its_root(rest, label);
        grouped_shape(rest);
        grouped_shape(list);
        group_at_bounds(before, p.source_type, 0);
        group_at_bounds(before, label, 0);
        group_at_bounds(out, label, 0);
        match group_at(before, p.source_type, 0) {
            Some(i) => {
                assert(out[i] == before[i].push(p));
                assert(out[i][0] == before[i][0]);
                if label == p.source_type {
                    group_of_is(out, label, i);
                    group_of_is(before, label, i);
                } else if group_at(before, label, 0) is Some {
                    let k = group_at(before, label, 0)->Some_0;
                    assert(out[k] == before[k]);
                    group_of_is(out, label, k);
                } else if group_at(out, label, 0) is Some {
                    let k = group_at(out, label, 0)->Some_0;
                    assert(before[k].len() > 0);
                    assert(out[k][0] == before[k][0]);
                }
            },
            None => {
                let n = before.len() as int;
                assert(out[n] == seq![p]);
                if label == p.source_type {
                    group_of_is(out, label, n);
                    assert(of_root(list, label) =~= seq![p]);
                } else if group_at(before, label, 0) is Some {
                    let k = group_at(before, label, 0)->Some_0;
                    assert(out[k] == before[k]);
                    group_of_is(out, label, k);
                } else if group_at(out, label, 0) is Some {
                    let k = group_at(out, label, 0)->Some_0;
                    assert(k < n);
                    assert(out[k] == before[k]);
                    assert(before[k].len() > 0);
                }
            },
        }
    } else {
        assert(group_at(grouped(list), label, 0) is None);
    }
}

/// What a root gives in a round: its pointer at that position, once its group was asked.
proof fn a_round_takes_one_of_each(
    groups: Seq<Seq<PointerView>>,
    round: int,
    n: int,
    label: Seq<char>,
)
    requires
        one_root_each(groups),
        0 <= n <= groups.len(),
        0 <= round,
    ensures
        of_root(round_of(groups, round, n), label) == match group_at(groups, label, 0) {
            Some(k) if k < n && round < groups[k].len() => seq![groups[k][round]],
            _ => seq![],
        },
    decreases n,
{
    group_at_bounds(groups, label, 0);
    if n > 0 {
        a_round_takes_one_of_each(groups, round, n - 1, label);
        let g = groups[n - 1];
        assert(g.len() > 0);
        group_of_is(groups, label, n - 1);
        if round < g.len() {
            let before = round_of(groups, round, n - 1);
            assert(groups[n - 1][round].source_type == g[0].source_type);
            assert(before.push(g[round]).drop_last() =~= before);
            if g[0].source_type == label {
                assert(of_root(before, label) =~= seq![]);
                assert(of_root(round_of(groups, round, n), label) =~= seq![g[round]]);
            }
        }
    }
}

proof fn rounds_take_in_order(groups: Seq<Seq<PointerView>>, rounds: int, label: Seq<char>)
    requires
        one_root_each(groups),
        0 <= rounds,
    ensures
        ({
            let g = group_of(groups, label);
            of_root(rounds_of(groups, rounds), label) == g.take(
                if rounds < g.len() {
                    rounds
                } else {
                    g.len() as int
                },
            )
        }),
    decreases rounds,
{
    let g = group_of(groups, label);
    group_at_bounds(groups, label, 0);
    if rounds == 0 {
        assert(g.take(0) =~= seq![]);
    } else {
        let n = groups.len() as int;
        rounds_take_in_order(groups, rounds - 1, label);
        a_round_takes_one_of_each(groups, rounds - 1, n, label);
        of_root_concat(rounds_of(groups, rounds - 1), round_of(groups, rounds - 1, n), label);
        let all = of_root(rounds_of(groups, rounds), label);
        if rounds - 1 < g.len() {
            assert(all =~= g.take(rounds));
        } else {
            assert(all =~= g);
            assert(g.take(g.len() as int) =~= g);
        }
    }
}

/// Taking turns leaves a root's own pointers in the order of their cosines: all of them
/// stand in the turns as they stand by rank, and those that get a slot are the strongest.
pub proof fn a_roots_own_pointers_stay_in_order(
    pointers: Seq<PointerView>,
    limit: nat,
    label: Seq<char>,
)
    ensures
        of_root(in_turns(pointers), label) == of_root(pointers_by_rank(pointers), label),
        of_root(round_robin(pointers, limit), label).is_prefix_of(
            of_root(pointers_by_rank(pointers), label),
        ),
{
    let list = pointers_by_rank(pointers);
    let groups = grouped(list);
    let n = groups.len() as int;
    let depth = deepest(groups, n);
    let g = group_of(groups, label);
    let all = in_turns(pointers);
    grouped_shape(list);
    deepest_bounds(groups, n);
    group_at_bounds(groups, label, 0);
    rounds_take_in_order(groups, depth, label);
    a_group_is_its_root(list, label);
    assert(g.len() <= depth);
    assert(g.take(g.len() as int) =~= g);
    let out = round_robin(pointers, limit);
    let rest = all.skip(out.len() as int);
    assert(all =~= out + rest);
    of_root_concat(out, rest, label);
    assert(of_root(out, label) =~= of_root(all, label).subrange(
        0,
        of_root(out, label).len() as int,
    ));
}

/// Where turn-taking stands after the first `m` slots: some rounds are whole, and one may
/// have begun.
proof fn slots_end_in_a_round(groups: Seq<Seq<PointerView>>, rounds: int, m: int) -> (at: (int, int))
    requires
        0 <= rounds,
        0 <= m <= rounds_of(groups, rounds).len(),
    ensures
        0 <= at.0 <= rounds,
        0 <= at.1 <= round_of(groups, at.0, groups.len() as int).len(),
        rounds_of(groups, rounds).take(m) == rounds_of(groups, at.0) + round_of(
            groups,
            at.0,
            groups.len() as int,
        ).take(at.1),
    decreases rounds,
{
    let n = groups.len() as int;
    let all = rounds_of(groups, rounds);
    if rounds == 0 {
        let round = round_of(groups, 0, n);
        assert(all.take(m) =~= all + round.take(0));
        (0, 0)
    } else {
        let whole = rounds_of(groups, rounds - 1);
        if m <= whole.len() {
            assert(all.take(m) =~= whole.take(m));
            slots_end_in_a_round(groups, rounds - 1, m)
        } else {
            let round = round_of(groups, rounds - 1, n);
            let q = m - whole.len();
            assert(all.take(m) =~= whole + round.take(q));
            (rounds - 1, q)
        }
    }
}

/// Slots are shared fairly in every round: however many there are, no root has two more
/// than another that has any left to give. So no root gets its slot `n + 1` before every
/// root with `n` pointers has `n`.
pub proof fn no_root_gets_two_slots_ahead(
    pointers: Seq<PointerView>,
    limit: nat,
    ahead: Seq<char>,
    behind: Seq<char>,
)
    ensures
        ({
            let out = round_robin(pointers, limit);
            of_root(out, ahead).len() <= of_root(out, behind).len() + 1 || of_root(
                out,
                behind,
            ) == of_root(pointers_by_rank(pointers), behind)
        }),
{
    let list = pointers_by_rank(pointers);
    let groups = grouped(list);
    let n = groups.len() as int;
    let depth = deepest(groups, n);
    let all = in_turns(pointers);
    let out = round_robin(pointers, limit);
    grouped_shape(list);
    deepest_bounds(groups, n);
    let (r, q) = slots_end_in_a_round(groups, depth, out.len() as int);
    let round = round_of(groups, r, n);
    let begun = round.take(q);
    assert(all.take(out.len() as int) =~= out);
    assert(round =~= begun + round.skip(q));
    rounds_take_in_order(groups, r, ahead);
    of_root_concat(rounds_of(groups, r), begun, ahead);
    a_round_takes_one_of_each(groups, r, n, ahead);
    of_root_concat(begun, round.skip(q), ahead);
    assert(out == rounds_of(groups, r) + begun);
    assert(of_root(round, ahead).len() <= 1);
    assert(of_root(round, ahead) == of_root(begun, ahead) + of_root(round.skip(q), ahead));
    assert(of_root(begun, ahead).len() <= 1);
    assert(of_root(rounds_of(groups, r), ahead).len() <= r);
    assert(of_root(out, ahead).len() <= r + 1);
    let g = group_of(groups, behind);
    rounds_take_in_order(groups, r, behind);
    of_root_concat(rounds_of(groups, r), begun, behind);
    a_group_is_its_root(list, behind);
    a_roots_own_pointers_stay_in_order(pointers, limit, behind);
    if g.len() <= r {
        let given = of_root(out, behind);
        assert(given.len() >= g.len());
        assert(given =~= g.subrange(0, given.len() as int));
        assert(given =~= g);
    } else {
        assert(of_root(out, behind).len() >= r);
    }
}

/// The order by rank is the order of the numbers: among those that are not negative it
/// rises with the bits, among the negative ones it falls, every negative one stands below
/// every other, and no two numbers share a rank.
pub proof fn ranks_are_in_the_order_of_the_numbers(a: u32, b: u32)
    ensures
        a < b < 0x8000_0000 ==> rank(a) < rank(b),
        0x8000_0000 <= a < b ==> rank(b) < rank(a),
        b < 0x8000_0000 <= a ==> rank(a) < rank(b),
        rank(a) == rank(b) ==> a == b,
{
}

/// A cosine that clears the threshold is a number from three quarters on, and every such
/// number clears it: 0x3f40_0000 are the bits of 0.75, and 0x7f80_0000 those of infinity.
pub proof fn the_threshold_is_three_quarters(bits: u32)
    ensures
        clears_threshold(bits) <==> rank(0x3f40_0000) <= rank(bits) <= rank(0x7f80_0000),
{
}

/// Two hits are of one root, one file and one text.
pub open spec fn repeats(a: HitView, b: HitView) -> bool {
    a.source_type == b.source_type && a.rel_path == b.rel_path && a.text == b.text
}

/// No hit that is left out is stronger than one that is returned: a hit is repeated by one
/// of the `k` best that is at least as strong, or all `k` are there and none of them is
/// weaker than it.
pub proof fn no_stronger_hit_is_left_out(hits: Seq<HitView>, k: nat, m: int)
    requires
        0 <= m < hits.len(),
    ensures
        ({
            let out = best_of(hits, k);
            ||| exists|i: int|
                0 <= i < out.len() && repeats(#[trigger] out[i], hits[m]) && rank(hits[m].cosine)
                    <= rank(out[i].cosine)
            ||| out.len() == k && forall|i: int|
                0 <= i < out.len() ==> rank(hits[m].cosine) <= rank((#[trigger] out[i]).cosine)
        }),
{
    let list = strongest_first(hits);
    strongest_first_falls(hits);
    without_repeats_shape(list);
    let all = without_repeats(list);
    let out = best_of(hits, k);
    assert(list.contains(hits[m]));
    let q = choose|q: int| 0 <= q < list.len() && list[q] == hits[m];
    assert(holds_chunk(all, list[q]));
    let j = choose|j: int| 0 <= j < all.len() && same_chunk(#[trigger] all[j], list[q]);
    assert(best_of_its_chunk(list, all[j]));
    assert(rank(list[q].cosine) <= rank(all[j].cosine));
    if j < out.len() {
        assert(out[j] == all[j]);
    } else {
        assert forall|i: int| 0 <= i < out.len() implies rank(hits[m].cosine) <= rank(
            (#[trigger] out[i]).cosine,
        ) by {
            assert(out[i] == all[i]);
            assert(rank(all[i].cosine) >= rank(all[j].cosine));
        }
    }
}

/// No two of the best are of one root, one file and one text.
pub proof fn the_best_repeat_nothing(hits: Seq<HitView>, k: nat)
    ensures
        forall|i: int, j: int|
            0 <= i < j < best_of(hits, k).len() ==> !repeats(
                #[trigger] best_of(hits, k)[i],
                #[trigger] best_of(hits, k)[j],
            ),
{
    the_best_are_distinct_and_strongest_first(hits, k);
    let out = best_of(hits, k);
    assert forall|i: int, j: int| 0 <= i < j < out.len() implies !repeats(
        #[trigger] out[i],
        #[trigger] out[j],
    ) by {
        assert(!same_chunk(out[i], out[j]));
    }
}

/// The top cosine is that of a hit, and no hit has a higher one.
pub proof fn the_top_cosine_is_the_highest(hits: Seq<HitView>)
    ensures
        top_of(hits) is None <==> hits.len() == 0,
        top_of(hits) matches Some(top) ==> (exists|m: int|
            0 <= m < hits.len() && (#[trigger] hits[m]).cosine == top) && forall|m: int|
            0 <= m < hits.len() ==> rank((#[trigger] hits[m]).cosine) <= rank(top),
    decreases hits.len(),
{
    if hits.len() > 0 {
        let rest = hits.drop_last();
        let n = hits.len() - 1;
        the_top_cosine_is_the_highest(rest);
        let top = top_of(hits)->Some_0;
        assert(hits[n] == hits.last());
        if rest.len() > 0 {
            let best = top_of(rest)->Some_0;
            let m = choose|m: int| 0 <= m < rest.len() && (#[trigger] rest[m]).cosine == best;
            assert(hits[m].cosine == best);
        }
        assert forall|m: int| 0 <= m < hits.len() implies rank((#[trigger] hits[m]).cosine) <= rank(
            top,
        ) by {
            if m < n {
                assert(rest[m] == hits[m]);
            }
        }
    }
}

/// How many pointers of a list are such as `f` says.
pub open spec fn tally(list: Seq<PointerView>, f: spec_fn(PointerView) -> bool) -> nat
    decreases list.len(),
{
    if list.len() == 0 {
        0
    } else {
        tally(list.drop_last(), f) + if f(list.last()) {
            1nat
        } else {
            0nat
        }
    }
}

proof fn tally_concat(a: Seq<PointerView>, b: Seq<PointerView>, f: spec_fn(PointerView) -> bool)
    ensures
        tally(a + b, f) == tally(a, f) + tally(b, f),
    decreases b.len(),
{
    if b.len() == 0 {
        assert(a + b =~= a);
    } else {
        tally_concat(a, b.drop_last(), f);
        assert((a + b).drop_last() =~= a + b.drop_last());
    }
}

spec fn at_positions(all: Seq<PointerView>, order: Seq<int>) -> Seq<PointerView> {
    order.map_values(|i: int| all[i])
}

proof fn tally_with_one_more(
    all: Seq<PointerView>,
    list: Seq<int>,
    ranks: Seq<int>,
    x: int,
    f: spec_fn(PointerView) -> bool,
)
    ensures
        tally(at_positions(all, ranked_with(list, ranks, x)), f) == tally(
            at_positions(all, list),
            f,
        ) + if f(all[x]) {
            1nat
        } else {
            0nat
        },
    decreases list.len(),
{
    let out = ranked_with(list, ranks, x);
    if list.len() == 0 || ranks[list.last()] >= ranks[x] {
        assert(at_positions(all, out).drop_last() =~= at_positions(all, list));
    } else {
        let rest = list.drop_last();
        tally_with_one_more(all, rest, ranks, x, f);
        assert(at_positions(all, out).drop_last() =~= at_positions(
            all,
            ranked_with(rest, ranks, x),
        ));
        assert(at_positions(all, list).drop_last() =~= at_positions(all, rest));
    }
}

proof fn tally_ranked(
    all: Seq<PointerView>,
    ranks: Seq<int>,
    n: int,
    f: spec_fn(PointerView) -> bool,
)
    requires
        0 <= n <= all.len(),
    ensures
        tally(at_positions(all, ranked(ranks, n)), f) == tally(all.take(n), f),
    decreases n,
{
    if n > 0 {
        tally_ranked(all, ranks, n - 1, f);
        tally_with_one_more(all, ranked(ranks, n - 1), ranks, n - 1, f);
        assert(all.take(n).drop_last() =~= all.take(n - 1));
    } else {
        assert(at_positions(all, ranked(ranks, n)) =~= seq![]);
        assert(all.take(n) =~= seq![]);
    }
}

proof fn tally_by_rank(pointers: Seq<PointerView>, f: spec_fn(PointerView) -> bool)
    ensures
        tally(pointers_by_rank(pointers), f) == tally(pointers, f),
{
    let ranks = pointer_ranks(pointers);
    tally_ranked(pointers, ranks, pointers.len() as int, f);
    assert(pointers.take(pointers.len() as int) =~= pointers);
    assert(pointers_by_rank(pointers) =~= at_positions(pointers, by_rank(ranks)));
}

proof fn tally_of_root(list: Seq<PointerView>, label: Seq<char>, f: spec_fn(PointerView) -> bool)
    requires
        forall|p: PointerView| #[trigger] f(p) ==> p.source_type == label,
    ensures
        tally(of_root(list, label), f) == tally(list, f),
    decreases list.len(),
{
    if list.len() > 0 {
        let rest = list.drop_last();
        tally_of_root(rest, label, f);
        if list.last().source_type == label {
            assert(of_root(list, label).drop_last() =~= of_root(rest, label));
        } else {
            assert(!f(list.last()));
        }
    }
}

proof fn tally_all(list: Seq<PointerView>, label: Seq<char>)
    ensures
        tally(list, |p: PointerView| p.source_type == label) == of_root(list, label).len(),
    decreases list.len(),
{
    if list.len() > 0 {
        tally_all(list.drop_last(), label);
    }
}

proof fn tallied_is_there(list: Seq<PointerView>, p: PointerView)
    ensures
        tally(list, |q: PointerView| q == p) > 0 <==> list.contains(p),
    decreases list.len(),
{
    if list.len() > 0 {
        let rest = list.drop_last();
        tallied_is_there(rest, p);
        if rest.contains(p) {
            let i = choose|i: int| 0 <= i < rest.len() && rest[i] == p;
            assert(list[i] == p);
        }
        if list.contains(p) {
            let i = choose|i: int| 0 <= i < list.len() && list[i] == p;
            if i < rest.len() {
                assert(rest[i] == p);
            }
        }
        if list.last() == p {
            assert(list[list.len() - 1] == p);
        }
    }
}

/// Taking turns makes up no pointer and shows none twice: of each there are at most as
/// many among those that get a slot as there were, and where there is a slot for all,
/// exactly as many.
pub proof fn slots_go_to_pointers_that_are_there(
    pointers: Seq<PointerView>,
    limit: nat,
    p: PointerView,
)
    ensures
        tally(round_robin(pointers, limit), |q: PointerView| q == p) <= tally(
            pointers,
            |q: PointerView| q == p,
        ),
        limit >= pointers.len() ==> tally(round_robin(pointers, limit), |q: PointerView| q == p)
            == tally(pointers, |q: PointerView| q == p),
        round_robin(pointers, limit).contains(p) ==> pointers.contains(p),
{
    let f = |q: PointerView| q == p;
    let label = p.source_type;
    let list = pointers_by_rank(pointers);
    let all = in_turns(pointers);
    let out = round_robin(pointers, limit);
    let rest = all.skip(out.len() as int);
    a_roots_own_pointers_stay_in_order(pointers, limit, label);
    every_root_gets_a_slot_before_any_root_gets_a_second(pointers, pointers.len());
    tally_of_root(all, label, f);
    tally_of_root(list, label, f);
    tally_by_rank(pointers, f);
    assert(all =~= out + rest);
    tally_concat(out, rest, f);
    if limit >= pointers.len() {
        assert(all.len() == pointers.len()) by {
            let n = grouped(list).len() as int;
            grouped_shape(list);
            deepest_bounds(grouped(list), n);
            rounds_count(grouped(list), deepest(grouped(list), n));
            counted_all(grouped(list), n, deepest(grouped(list), n));
            by_rank_is_a_stable_order(pointer_ranks(pointers));
        }
        assert(out =~= all);
    }
    tallied_is_there(out, p);
    tallied_is_there(pointers, p);
}

/// The cosines of a list of pointers fall from one to the next, or stay.
pub open spec fn cosines_fall(list: Seq<PointerView>) -> bool {
    forall|i: int, j: int|
        0 <= i < j < list.len() ==> rank((#[trigger] list[i]).cosine) >= rank(
            (#[trigger] list[j]).cosine,
        )
}

proof fn pointers_by_rank_fall(pointers: Seq<PointerView>)
    ensures
        cosines_fall(pointers_by_rank(pointers)),
        pointers_by_rank(pointers).len() == pointers.len(),
        forall|m: int|
            0 <= m < pointers.len() ==> pointers_by_rank(pointers).contains(#[trigger] pointers[m]),
{
    let ranks = pointer_ranks(pointers);
    let order = by_rank(ranks);
    by_rank_is_a_stable_order(ranks);
    let list = pointers_by_rank(pointers);
    assert forall|i: int| 0 <= i < order.len() implies 0 <= #[trigger] order[i]
        < pointers.len() by {
        assert(order.contains(order[i]));
    }
    assert forall|i: int, j: int| 0 <= i < j < list.len() implies rank(
        (#[trigger] list[i]).cosine,
    ) >= rank((#[trigger] list[j]).cosine) by {
        assert(precedes(ranks, order[i], order[j]));
        assert(ranks[order[i]] == rank(list[i].cosine));
        assert(ranks[order[j]] == rank(list[j].cosine));
    }
    assert forall|m: int| 0 <= m < pointers.len() implies list.contains(
        #[trigger] pointers[m],
    ) by {
        assert(order.contains(m));
        let k = choose|k: int| 0 <= k < order.len() && order[k] == m;
        assert(list[k] == pointers[m]);
    }
}

proof fn of_root_comes_from(list: Seq<PointerView>, label: Seq<char>)
    ensures
        forall|i: int|
            0 <= i < of_root(list, label).len() ==> list.contains(#[trigger] of_root(list, label)[i])
                && of_root(list, label)[i].source_type == label,
    decreases list.len(),
{
    if list.len() > 0 {
        let rest = list.drop_last();
        of_root_comes_from(rest, label);
        let out = of_root(list, label);
        assert forall|i: int| 0 <= i < out.len() implies list.contains(#[trigger] out[i])
            && out[i].source_type == label by {
            if i < of_root(rest, label).len() {
                let p = of_root(rest, label)[i];
                assert(out[i] == p);
                let k = choose|k: int| 0 <= k < rest.len() && rest[k] == p;
                assert(list[k] == p);
            } else {
                assert(list[list.len() - 1] == out[i]);
            }
        }
    }
}

proof fn of_root_falls(list: Seq<PointerView>, label: Seq<char>)
    requires
        cosines_fall(list),
    ensures
        cosines_fall(of_root(list, label)),
    decreases list.len(),
{
    if list.len() > 0 {
        let rest = list.drop_last();
        assert forall|i: int, j: int| 0 <= i < j < rest.len() implies rank(
            (#[trigger] rest[i]).cosine,
        ) >= rank((#[trigger] rest[j]).cosine) by {
            assert(rest[i] == list[i] && rest[j] == list[j]);
        }
        of_root_falls(rest, label);
        of_root_comes_from(rest, label);
        let before = of_root(rest, label);
        let out = of_root(list, label);
        assert forall|i: int, j: int| 0 <= i < j < out.len() implies rank(
            (#[trigger] out[i]).cosine,
        ) >= rank((#[trigger] out[j]).cosine) by {
            assert(out[i] == before[i]);
            if j < before.len() {
                assert(out[j] == before[j]);
            } else {
                assert(rest.contains(before[i]));
                let k = choose|k: int| 0 <= k < rest.len() && rest[k] == before[i];
                assert(rank(list[k].cosine) >= rank(list[list.len() - 1].cosine));
            }
        }
    }
}

/// Where a pointer of a root stands among those of its root.
proof fn place_of_root(list: Seq<PointerView>, label: Seq<char>, i: int)
    requires
        0 <= i < list.len(),
        list[i].source_type == label,
    ensures
        of_root(list.take(i), label).len() < of_root(list, label).len(),
        of_root(list, label)[of_root(list.take(i), label).len() as int] == list[i],
{
    let head = list.take(i + 1);
    assert(head.drop_last() =~= list.take(i));
    assert(list =~= head + list.skip(i + 1));
    of_root_concat(head, list.skip(i + 1), label);
    assert(head.last() == list[i]);
}

proof fn of_root_of_a_prefix(list: Seq<PointerView>, label: Seq<char>, i: int, j: int)
    requires
        0 <= i < j <= list.len(),
        list[i].source_type == label,
    ensures
        of_root(list.take(i), label).len() < of_root(list.take(j), label).len(),
{
    let t = list.take(j);
    assert(t.take(i) =~= list.take(i));
    place_of_root(t, label, i);
}

/// A root's slots go to its strongest pointers, strongest first: of two of its pointers
/// that get a slot the earlier has no lower cosine than the later, and none that is left
/// out has a higher cosine than one that gets a slot.
pub proof fn a_roots_slots_go_to_its_highest_cosines(pointers: Seq<PointerView>, limit: nat)
    ensures
        ({
            let out = round_robin(pointers, limit);
            &&& forall|i: int, j: int|
                0 <= i < j < out.len() && (#[trigger] out[i]).source_type == (
                #[trigger] out[j]).source_type ==> rank(out[i].cosine) >= rank(out[j].cosine)
            &&& forall|i: int, m: int|
                0 <= i < out.len() && 0 <= m < pointers.len() && (
                #[trigger] pointers[m]).source_type == (#[trigger] out[i]).source_type
                    && !out.contains(pointers[m]) ==> rank(pointers[m].cosine) <= rank(
                    out[i].cosine,
                )
        }),
{
    let list = pointers_by_rank(pointers);
    let out = round_robin(pointers, limit);
    pointers_by_rank_fall(pointers);
    assert forall|i: int, j: int|
        0 <= i < j < out.len() && (#[trigger] out[i]).source_type == (
        #[trigger] out[j]).source_type implies rank(out[i].cosine) >= rank(out[j].cosine) by {
        let label = out[i].source_type;
        a_roots_own_pointers_stay_in_order(pointers, limit, label);
        of_root_falls(list, label);
        let own = of_root(list, label);
        let given = of_root(out, label);
        place_of_root(out, label, i);
        place_of_root(out, label, j);
        of_root_of_a_prefix(out, label, i, j);
        let a = of_root(out.take(i), label).len() as int;
        let b = of_root(out.take(j), label).len() as int;
        assert(given =~= own.subrange(0, given.len() as int));
        assert(own[a] == out[i]);
        assert(own[b] == out[j]);
    }
    assert forall|i: int, m: int|
        0 <= i < out.len() && 0 <= m < pointers.len() && (#[trigger] pointers[m]).source_type == (
        #[trigger] out[i]).source_type && !out.contains(pointers[m]) implies rank(
        pointers[m].cosine,
    ) <= rank(out[i].cosine) by {
        let label = out[i].source_type;
        a_roots_own_pointers_stay_in_order(pointers, limit, label);
        of_root_falls(list, label);
        of_root_comes_from(out, label);
        let own = of_root(list, label);
        let given = of_root(out, label);
        place_of_root(out, label, i);
        let a = of_root(out.take(i), label).len() as int;
        assert(given =~= own.subrange(0, given.len() as int));
        assert(own[a] == out[i]);
        assert(list.contains(pointers[m]));
        let k = choose|k: int| 0 <= k < list.len() && list[k] == pointers[m];
        place_of_root(list, label, k);
        let b = of_root(list.take(k), label).len() as int;
        assert(own[b] == pointers[m]);
        if b < given.len() {
            assert(given[b] == pointers[m]);
            assert(out.contains(given[b]));
        }
        assert(a < b);
    }
}

/// The first slot goes to the highest cosine there is, and every slot that can be filled
/// is.
pub proof fn the_first_slot_goes_to_the_highest_cosine(pointers: Seq<PointerView>, limit: nat)
    ensures
        ({
            let out = round_robin(pointers, limit);
            &&& out.len() == if limit < pointers.len() {
                limit as int
            } else {
                pointers.len() as int
            }
            &&& out.len() > 0 ==> forall|m: int|
                0 <= m < pointers.len() ==> rank((#[trigger] pointers[m]).cosine) <= rank(
                    out[0].cosine,
                )
        }),
{
    let list = pointers_by_rank(pointers);
    let out = round_robin(pointers, limit);
    every_root_gets_a_slot_before_any_root_gets_a_second(pointers, limit);
    pointers_by_rank_fall(pointers);
    if out.len() > 0 {
        assert forall|m: int| 0 <= m < pointers.len() implies rank(
            (#[trigger] pointers[m]).cosine,
        ) <= rank(out[0].cosine) by {
            assert(list.contains(pointers[m]));
            let k = choose|k: int| 0 <= k < list.len() && list[k] == pointers[m];
            if k > 0 {
                assert(rank(list[0].cosine) >= rank(list[k].cosine));
            }
        }
    }
}

/// No root has two slots more than another that has a pointer left out.
pub proof fn slots_are_shared(
    pointers: Seq<PointerView>,
    limit: nat,
    ahead: Seq<char>,
    behind: Seq<char>,
)
    ensures
        ({
            let out = round_robin(pointers, limit);
            let a = tally(out, |p: PointerView| p.source_type == ahead);
            let b = tally(out, |p: PointerView| p.source_type == behind);
            a <= b + 1 || b == tally(pointers, |p: PointerView| p.source_type == behind)
        }),
{
    let out = round_robin(pointers, limit);
    no_root_gets_two_slots_ahead(pointers, limit, ahead, behind);
    tally_all(out, ahead);
    tally_all(out, behind);
    tally_all(pointers_by_rank(pointers), behind);
    tally_by_rank(pointers, |p: PointerView| p.source_type == behind);
}

proof fn path_in_is(roots: Seq<(&str, &str)>, label: Seq<char>, rel: Seq<char>, i: int)
    requires
        0 <= i,
    ensures
        (forall|j: int| i <= j < roots.len() ==> (#[trigger] roots[j]).0@ != label) ==> path_in(
            roots,
            label,
            rel,
            i,
        ) == rel,
        forall|k: int|
            i <= k < roots.len() && (#[trigger] roots[k]).0@ == label && (forall|j: int|
                i <= j < k ==> (#[trigger] roots[j]).0@ != label) ==> path_in(roots, label, rel, i)
                == below(roots[k].1@, rel),
    decreases roots.len() - i,
{
    if i < roots.len() && roots[i].0@ != label {
        path_in_is(roots, label, rel, i + 1);
        assert forall|k: int|
            i <= k < roots.len() && (#[trigger] roots[k]).0@ == label && (forall|j: int|
                i <= j < k ==> (#[trigger] roots[j]).0@ != label) implies path_in(
            roots,
            label,
            rel,
            i,
        ) == below(roots[k].1@, rel) by {
            assert(k >= i + 1);
        }
    } else if i < roots.len() {
        assert forall|k: int|
            i <= k < roots.len() && (#[trigger] roots[k]).0@ == label && (forall|j: int|
                i <= j < k ==> (#[trigger] roots[j]).0@ != label) implies path_in(
            roots,
            label,
            rel,
            i,
        ) == below(roots[k].1@, rel) by {
            if k > i {
                assert(roots[i].0@ != label);
            }
        }
    }
}

/// A pointer has the title and the date of a hit in its file that clears the threshold.
pub open spec fn describes_a_hit(hits: Seq<HitView>, p: PointerView) -> bool {
    exists|m: int|
        0 <= m < hits.len() && points_at(p, #[trigger] hits[m]) && clears_threshold(
            hits[m].cosine,
        ) && hits[m].title == p.title && hits[m].captured == p.captured
}

/// A pointer leads to the file of its hits: below the directory of the first root with its
/// label, or as the file is named where no root has it; and it says what a hit in that
/// file says of the note.
pub proof fn a_pointer_leads_to_its_file(hits: Seq<HitView>, roots: Seq<(&str, &str)>, k: int)
    requires
        0 <= k < consolidated(hits, roots).len(),
    ensures
        ({
            let p = consolidated(hits, roots)[k];
            &&& describes_a_hit(hits, p)
            &&& (forall|j: int| 0 <= j < roots.len() ==> (#[trigger] roots[j]).0@ != p.source_type)
                ==> p.path == p.rel_path
            &&& forall|r: int|
                0 <= r < roots.len() && (#[trigger] roots[r]).0@ == p.source_type && (forall|j: int|
                    0 <= j < r ==> (#[trigger] roots[j]).0@ != p.source_type) ==> p.path == below(
                    roots[r].1@,
                    p.rel_path,
                )
        }),
    decreases hits.len(),
{
    let rest = hits.drop_last();
    let h = hits.last();
    let n = hits.len() - 1;
    let before = consolidated(rest, roots);
    let out = consolidated(hits, roots);
    let p = out[k];
    pointer_at_bounds(before, h, 0);
    assert(hits[n] == h);
    if k < before.len() {
        a_pointer_leads_to_its_file(rest, roots, k);
        let q = before[k];
        let m = choose|m: int|
            0 <= m < rest.len() && points_at(q, #[trigger] rest[m]) && clears_threshold(
                rest[m].cosine,
            ) && rest[m].title == q.title && rest[m].captured == q.captured;
        assert(hits[m] == rest[m]);
        assert(points_at(p, hits[m]));
    } else {
        assert(p == pointer_of(roots, h));
        assert(points_at(p, hits[n]));
        path_in_is(roots, h.source_type, h.rel_path, 0);
    }
}

proof fn groups_open_strongest_first(list: Seq<PointerView>)
    requires
        cosines_fall(list),
    ensures
        forall|g: int, h: int|
            0 <= g < h < grouped(list).len() ==> rank((#[trigger] grouped(list)[g])[0].cosine)
                >= rank((#[trigger] grouped(list)[h])[0].cosine),
        forall|g: int| 0 <= g < grouped(list).len() ==> list.contains((#[trigger] grouped(list)[g])[0]),
    decreases list.len(),
{
    if list.len() > 0 {
        let rest = list.drop_last();
        let p = list.last();
        let n = list.len() - 1;
        let before = grouped(rest);
        let out = grouped(list);
        assert forall|i: int, j: int| 0 <= i < j < rest.len() implies rank(
            (#[trigger] rest[i]).cosine,
        ) >= rank((#[trigger] rest[j]).cosine) by {
            assert(rest[i] == list[i] && rest[j] == list[j]);
        }
        groups_open_strongest_first(rest);
        grouped_shape(rest);
        group_at_bounds(before, p.source_type, 0);
        assert forall|g: int| 0 <= g < before.len() implies (#[trigger] out[g])[0]
            == before[g][0] by {
            assert(before[g].len() > 0);
        }
        assert forall|g: int| 0 <= g < out.len() implies list.contains(
            (#[trigger] out[g])[0],
        ) by {
            if g < before.len() {
                assert(rest.contains(before[g][0]));
                let k = choose|k: int| 0 <= k < rest.len() && rest[k] == before[g][0];
                assert(list[k] == out[g][0]);
            } else {
                assert(list[n] == out[g][0]);
            }
        }
        assert forall|g: int, h: int| 0 <= g < h < out.len() implies rank(
            (#[trigger] out[g])[0].cosine,
        ) >= rank((#[trigger] out[h])[0].cosine) by {
            if h < before.len() {
                assert(rank(before[g][0].cosine) >= rank(before[h][0].cosine));
            } else {
                assert(rest.contains(before[g][0]));
                let k = choose|k: int| 0 <= k < rest.len() && rest[k] == before[g][0];
                assert(rank(list[k].cosine) >= rank(list[n].cosine));
            }
        }
    }
}

/// Roots take their first turns strongest first: of two pointers that are the first of
/// their roots among those that get a slot, the earlier has no lower cosine.
pub proof fn roots_take_their_first_turns_strongest_first(
    pointers: Seq<PointerView>,
    limit: nat,
    i: int,
    j: int,
)
    requires
        0 <= i < j < round_robin(pointers, limit).len(),
        forall|k: int|
            0 <= k < j ==> (#[trigger] round_robin(pointers, limit)[k]).source_type != round_robin(
                pointers,
                limit,
            )[j].source_type,
        forall|k: int|
            0 <= k < i ==> (#[trigger] round_robin(pointers, limit)[k]).source_type != round_robin(
                pointers,
                limit,
            )[i].source_type,
    ensures
        rank(round_robin(pointers, limit)[i].cosine) >= rank(
            round_robin(pointers, limit)[j].cosine,
        ),
{
    let list = pointers_by_rank(pointers);
    let groups = grouped(list);
    let n = groups.len() as int;
    let out = round_robin(pointers, limit);
    every_root_gets_a_slot_before_any_root_gets_a_second(pointers, limit);
    pointers_by_rank_fall(pointers);
    groups_open_strongest_first(list);
    if j >= n {
        let p = out[j];
        slots_go_to_pointers_that_are_there(pointers, limit, p);
        assert(out.contains(p));
        let m = choose|m: int| 0 <= m < pointers.len() && pointers[m] == p;
        assert(list.contains(pointers[m]));
        a_group_is_its_root(list, p.source_type);
        let q = choose|q: int| 0 <= q < list.len() && list[q] == p;
        place_of_root(list, p.source_type, q);
        group_at_bounds(groups, p.source_type, 0);
        let g = group_at(groups, p.source_type, 0)->Some_0;
        assert(out[g] == groups[g][0]);
        assert(out[g].source_type == p.source_type);
    }
    assert(out[i] == groups[i][0]);
    assert(out[j] == groups[j][0]);
}

/// A hit of the file that a pointer is at, and one that may be shown.
pub open spec fn counts_for(p: PointerView, h: HitView) -> bool {
    h.source_type == p.source_type && h.rel_path == p.rel_path && clears_threshold(h.cosine)
}

/// The hit at a place is the first of a pointer's file, and names it.
pub open spec fn is_first_of_file(hits: Seq<HitView>, p: PointerView, m: int) -> bool {
    &&& 0 <= m < hits.len()
    &&& counts_for(p, hits[m])
    &&& hits[m].title == p.title && hits[m].captured == p.captured
    &&& forall|j: int| 0 <= j < m ==> !counts_for(p, #[trigger] hits[j])
}

/// The hit at a place is the first of the best of a pointer's file, and gives it its
/// heading.
pub open spec fn is_first_best(hits: Seq<HitView>, p: PointerView, m: int) -> bool {
    &&& 0 <= m < hits.len()
    &&& counts_for(p, hits[m])
    &&& hits[m].cosine == p.cosine && hits[m].heading_path == p.heading_path
    &&& forall|j: int| 0 <= j < m && counts_for(p, #[trigger] hits[j]) ==> hits[j].cosine < p.cosine
    &&& forall|j: int|
        m < j < hits.len() && counts_for(p, #[trigger] hits[j]) ==> hits[j].cosine <= p.cosine
}

proof fn first_of_file_stays(rest: Seq<HitView>, h: HitView, q: PointerView, p: PointerView, m: int)
    requires
        is_first_of_file(rest, q, m),
        p.source_type == q.source_type,
        p.rel_path == q.rel_path,
        p.title == q.title,
        p.captured == q.captured,
    ensures
        is_first_of_file(rest.push(h), p, m),
{
    let hits = rest.push(h);
    assert(hits[m] == rest[m]);
    assert forall|j: int| 0 <= j < m implies !counts_for(p, #[trigger] hits[j]) by {
        assert(hits[j] == rest[j]);
        assert(!counts_for(q, rest[j]));
    }
}

proof fn first_best_stays(rest: Seq<HitView>, h: HitView, p: PointerView, m: int)
    requires
        is_first_best(rest, p, m),
        counts_for(p, h) ==> h.cosine <= p.cosine,
    ensures
        is_first_best(rest.push(h), p, m),
{
    let hits = rest.push(h);
    assert(hits[m] == rest[m]);
    assert forall|j: int| 0 <= j < m && counts_for(p, #[trigger] hits[j]) implies hits[j].cosine
        < p.cosine by {
        assert(hits[j] == rest[j]);
    }
    assert forall|j: int| m < j < hits.len() && counts_for(p, #[trigger] hits[j]) implies hits[j].cosine
        <= p.cosine by {
        if j < rest.len() {
            assert(hits[j] == rest[j]);
        } else {
            assert(hits[j] == h);
        }
    }
}

proof fn first_best_is_raised(
    rest: Seq<HitView>,
    h: HitView,
    q: PointerView,
    p: PointerView,
    m: int,
)
    requires
        is_first_best(rest, q, m),
        p.source_type == q.source_type,
        p.rel_path == q.rel_path,
        p.cosine == h.cosine,
        p.heading_path == h.heading_path,
        q.cosine < h.cosine,
        counts_for(p, h),
    ensures
        is_first_best(rest.push(h), p, rest.len() as int),
{
    let hits = rest.push(h);
    let n = rest.len() as int;
    assert(hits[n] == h);
    assert forall|j: int| 0 <= j < n && counts_for(p, #[trigger] hits[j]) implies hits[j].cosine
        < p.cosine by {
        assert(hits[j] == rest[j]);
        assert(counts_for(q, rest[j]));
        if j == m {
        } else if j < m {
            assert(rest[j].cosine < q.cosine);
        } else {
            assert(rest[j].cosine <= q.cosine);
        }
    }
}

proof fn a_new_file_was_not_met(
    rest: Seq<HitView>,
    before: Seq<PointerView>,
    h: HitView,
    p: PointerView,
)
    requires
        all_pointed_at(rest, before),
        forall|j: int| 0 <= j < before.len() ==> !points_at(#[trigger] before[j], h),
        points_at(p, h),
        clears_threshold(h.cosine),
        p.title == h.title,
        p.captured == h.captured,
        p.cosine == h.cosine,
        p.heading_path == h.heading_path,
    ensures
        is_first_of_file(rest.push(h), p, rest.len() as int),
        is_first_best(rest.push(h), p, rest.len() as int),
{
    let hits = rest.push(h);
    let n = rest.len() as int;
    assert(hits[n] == h);
    assert forall|j: int| 0 <= j < n implies !counts_for(p, #[trigger] hits[j]) by {
        assert(hits[j] == rest[j]);
        if counts_for(p, rest[j]) {
            assert(is_pointed_at(before, rest[j]));
            let i = choose|i: int| 0 <= i < before.len() && points_at(#[trigger] before[i], rest[j]);
            assert(points_at(before[i], h));
        }
    }
}

proof fn only_one_is_at(before: Seq<PointerView>, h: HitView, k: int)
    requires
        distinct_files(before),
        0 <= k < before.len(),
        points_at(before[k], h),
    ensures
        pointer_at(before, h, 0) == Some(k),
{
    pointer_at_bounds(before, h, 0);
    assert(pointer_at(before, h, 0) is Some);
    let i = pointer_at(before, h, 0)->Some_0;
    if i < k {
        assert(before[i].source_type == before[k].source_type);
    } else if k < i {
        assert(before[k].source_type == before[i].source_type);
    }
}

proof fn first_and_best_kept(
    rest: Seq<HitView>,
    before: Seq<PointerView>,
    roots: Seq<(&str, &str)>,
    h: HitView,
    k: int,
    a: int,
    b: int,
)
    requires
        distinct_files(before),
        0 <= k < before.len(),
        is_first_of_file(rest, before[k], a),
        is_first_best(rest, before[k], b),
    ensures
        exists|m: int| #[trigger]
            is_first_of_file(rest.push(h), with_hit(before, roots, h)[k], m),
        exists|m: int| #[trigger] is_first_best(rest.push(h), with_hit(before, roots, h)[k], m),
{
    let q = before[k];
    let p = with_hit(before, roots, h)[k];
    let at = pointer_at(before, h, 0);
    if points_at(q, h) {
        only_one_is_at(before, h, k);
    }
    pointer_at_bounds(before, h, 0);
    if clears_threshold(h.cosine) && at == Some(k) && h.cosine > q.cosine {
        assert(p == (PointerView { cosine: h.cosine, heading_path: h.heading_path, ..q }));
        assert(counts_for(p, h));
        first_best_is_raised(rest, h, q, p, b);
    } else {
        assert(p == q);
        first_best_stays(rest, h, p, b);
    }
    first_of_file_stays(rest, h, q, p, a);
}

/// A file is named by the first of its hits and shown under the heading of its best one,
/// which is the first of those that are as good.
pub proof fn the_first_of_the_best_gives_the_heading(
    hits: Seq<HitView>,
    roots: Seq<(&str, &str)>,
    k: int,
)
    requires
        0 <= k < consolidated(hits, roots).len(),
    ensures
        exists|m: int| #[trigger] is_first_of_file(hits, consolidated(hits, roots)[k], m),
        exists|m: int| #[trigger] is_first_best(hits, consolidated(hits, roots)[k], m),
    decreases hits.len(),
{
    let rest = hits.drop_last();
    let h = hits.last();
    let before = consolidated(rest, roots);
    assert(rest.push(h) =~= hits);
    assert(consolidated(hits, roots) == with_hit(before, roots, h));
    if k < before.len() {
        assert(distinct_files(before)) by {
            one_pointer_per_file_at_its_best(rest, roots);
        }
        the_first_of_the_best_gives_the_heading(rest, roots, k);
        let a = choose|m: int| #[trigger] is_first_of_file(rest, before[k], m);
        let b = choose|m: int| #[trigger] is_first_best(rest, before[k], m);
        first_and_best_kept(rest, before, roots, h, k, a, b);
    } else {
        assert(all_pointed_at(rest, before)) by {
            one_pointer_per_file_at_its_best(rest, roots);
        }
        pointer_at_bounds(before, h, 0);
        let p = pointer_of(roots, h);
        assert(clears_threshold(h.cosine));
        assert(consolidated(hits, roots)[k] == p);
        a_new_file_was_not_met(rest, before, h, p);
    }
}

/// Hits that are as strong as each other are shown in the order in which they came.
pub proof fn equals_keep_their_order(ranks: Seq<int>, i: int, j: int)
    requires
        0 <= i < j < by_rank(ranks).len(),
        ranks[by_rank(ranks)[i]] == ranks[by_rank(ranks)[j]],
    ensures
        by_rank(ranks)[i] < by_rank(ranks)[j],
{
    by_rank_is_a_stable_order(ranks);
}

} // verus!
