//! What a note says is in its chunks, and nothing else.
use vstd::prelude::*;
use crate::chunk::{
    all_cut, all_drafts, body_pieces, body_start, body_units, chunk_of, chunks_of,
    closed_sections, context_header, cut, drafts_of, gathered, hard_pieces, heading_level,
    no_sections, note_chunks, note_sections, packed, paragraph_units, query_units,
    section_drafts, sectioned, tail, units_of, ChunkView, Draft, Section, MAX_CHARS,
    OVERLAP_CHARS, TARGET_CHARS,
};
use crate::chunk_laws::{a_short_query_is_one_unit_unchanged, blank_concat, is_chunked};
use crate::line_laws::trimmed_is;
use crate::text::{
    blank, first, first_bounds, found, found_is_first, lines, pieces, stands_at, trimmed,
    trimmed_end, trimmed_start, white_space, without_return,
};
use crate::transcript_index::{fenced_after, read_on_fence, sectioned_is_read_on};

verus! {

/// The characters of a text that are no white space, in order.
pub open spec fn squeezed(s: Seq<char>) -> Seq<char>
    decreases s.len(),
{
    if s.len() == 0 {
        seq![]
    } else if white_space(s.last()) {
        squeezed(s.drop_last())
    } else {
        squeezed(s.drop_last()).push(s.last())
    }
}

/// The characters of all the texts of a list that are no white space, in order.
pub open spec fn squeezed_all(list: Seq<Seq<char>>) -> Seq<char>
    decreases list.len(),
{
    if list.len() == 0 {
        seq![]
    } else {
        squeezed_all(list.drop_last()) + squeezed(list.last())
    }
}

/// All the characters of one text stand in another, in order, with others between them or
/// not.
pub open spec fn stands_in_order(a: Seq<char>, b: Seq<char>) -> bool
    decreases b.len(),
{
    if a.len() == 0 {
        true
    } else if b.len() == 0 {
        false
    } else {
        (a.last() == b.last() && stands_in_order(a.drop_last(), b.drop_last()))
            || stands_in_order(a, b.drop_last())
    }
}

/// One text is a part of another, without a gap.
pub open spec fn is_part_of(part: Seq<char>, whole: Seq<char>) -> bool {
    exists|before: Seq<char>, after: Seq<char>| whole == #[trigger] (before + part + after)
}

proof fn squeezed_concat(a: Seq<char>, b: Seq<char>)
    ensures
        squeezed(a + b) == squeezed(a) + squeezed(b),
    decreases b.len(),
{
    if b.len() == 0 {
        assert(a + b =~= a);
        assert(squeezed(a) + squeezed(b) =~= squeezed(a));
    } else {
        squeezed_concat(a, b.drop_last());
        assert((a + b).drop_last() =~= a + b.drop_last());
        assert(squeezed(a + b) =~= squeezed(a) + squeezed(b));
    }
}

proof fn squeezed_blank(s: Seq<char>)
    ensures
        squeezed(s).len() == 0 <==> blank(s),
    decreases s.len(),
{
    if s.len() > 0 {
        squeezed_blank(s.drop_last());
        assert(s =~= s.drop_last() + seq![s.last()]);
        blank_concat(s.drop_last(), seq![s.last()]);
        assert(seq![s.last()][0] == s.last());
    }
}

proof fn squeezed_lists(a: Seq<Seq<char>>, b: Seq<Seq<char>>)
    ensures
        squeezed_all(a + b) == squeezed_all(a) + squeezed_all(b),
    decreases b.len(),
{
    if b.len() == 0 {
        assert(a + b =~= a);
        assert(squeezed_all(a) + squeezed_all(b) =~= squeezed_all(a));
    } else {
        squeezed_lists(a, b.drop_last());
        assert((a + b).drop_last() =~= a + b.drop_last());
        assert(squeezed_all(a + b) =~= squeezed_all(a) + squeezed_all(b));
    }
}

proof fn squeezed_one(s: Seq<char>)
    ensures
        squeezed_all(seq![s]) == squeezed(s),
{
    assert(seq![s].drop_last() =~= seq![]);
    assert(squeezed_all(seq![s].drop_last()) =~= seq![]);
    assert(squeezed_all(seq![s]) =~= squeezed(s));
}

proof fn squeezed_push(list: Seq<Seq<char>>, s: Seq<char>)
    ensures
        squeezed_all(list.push(s)) == squeezed_all(list) + squeezed(s),
{
    assert(list.push(s).drop_last() =~= list);
}

proof fn in_order_itself(a: Seq<char>)
    ensures
        stands_in_order(a, a),
    decreases a.len(),
{
    if a.len() > 0 {
        in_order_itself(a.drop_last());
    }
}

proof fn in_order_before_more(a: Seq<char>, b: Seq<char>, more: Seq<char>)
    requires
        stands_in_order(a, b),
    ensures
        stands_in_order(a, b + more),
    decreases more.len(),
{
    if more.len() == 0 {
        assert(b + more =~= b);
    } else {
        in_order_before_more(a, b, more.drop_last());
        assert((b + more).drop_last() =~= b + more.drop_last());
    }
}

proof fn in_order_concat(a: Seq<char>, b: Seq<char>, c: Seq<char>, d: Seq<char>)
    requires
        stands_in_order(a, b),
        stands_in_order(c, d),
    ensures
        stands_in_order(a + c, b + d),
    decreases d.len(),
{
    if c.len() == 0 {
        assert(a + c =~= a);
        in_order_before_more(a, b, d);
    } else {
        assert((a + c).drop_last() =~= a + c.drop_last());
        assert((b + d).drop_last() =~= b + d.drop_last());
        if c.last() == d.last() && stands_in_order(c.drop_last(), d.drop_last()) {
            in_order_concat(a, b, c.drop_last(), d.drop_last());
        } else {
            in_order_concat(a, b, c, d.drop_last());
        }
    }
}

/// A text stands in every text that it is the end of.
proof fn in_order_behind(a: Seq<char>, before: Seq<char>)
    ensures
        stands_in_order(a, before + a),
{
    let e = Seq::<char>::empty();
    in_order_itself(a);
    in_order_concat(e, before, a, a);
    assert(e + a =~= a);
}

proof fn hard_pieces_keep(s: Seq<char>)
    ensures
        squeezed_all(hard_pieces(s)) == squeezed(s),
    decreases s.len(),
{
    if s.len() > MAX_CHARS {
        let head = s.take(MAX_CHARS as int);
        let rest = s.skip(MAX_CHARS as int);
        hard_pieces_keep(rest);
        squeezed_one(head);
        squeezed_lists(seq![head], hard_pieces(rest));
        squeezed_concat(head, rest);
        assert(s =~= head + rest);
    } else if s.len() > 0 {
        squeezed_one(s);
    }
}

proof fn lines_keep(s: Seq<char>)
    ensures
        squeezed_all(lines(s)) == squeezed(s),
    decreases s.len(),
{
    if s.len() > 0 {
        first_bounds(s, '\n');
        let n = first(s, '\n') as int;
        if n < s.len() {
            let head = s.take(n);
            let rest = s.skip(n + 1);
            let feed = seq!['\n'];
            lines_keep(rest);
            squeezed_one(without_return(head));
            squeezed_lists(seq![without_return(head)], lines(rest));
            squeezed_concat(head, feed);
            squeezed_concat(head + feed, rest);
            squeezed_blank(feed);
            assert(s =~= head + feed + rest);
            assert(squeezed(head) + squeezed(feed) =~= squeezed(head));
            assert(squeezed(without_return(head)) == squeezed(head));
        } else {
            squeezed_one(s);
        }
    }
}

proof fn pieces_keep(s: Seq<char>)
    ensures
        squeezed_all(pieces(s, seq!['\n', '\n'])) == squeezed(s),
    decreases s.len(),
{
    let sep = seq!['\n', '\n'];
    found_is_first(s, sep, 0);
    match found(s, sep, 0) {
        Some(k) if 0 <= k && k + sep.len() <= s.len() => {
            let head = s.take(k);
            let rest = s.skip(k + sep.len());
            pieces_keep(rest);
            squeezed_one(head);
            squeezed_lists(seq![head], pieces(rest, sep));
            squeezed_concat(head, sep);
            squeezed_concat(head + sep, rest);
            squeezed_blank(sep);
            assert(squeezed(head) + squeezed(sep) =~= squeezed(head));
            assert(s =~= head + sep + rest) by {
                assert(s.subrange(k, k + sep.len()) == sep);
            }
        },
        _ => {
            assert(pieces(s, sep) =~= seq![s]);
            squeezed_one(s);
        },
    }
}

proof fn gathered_keep(ls: Seq<Seq<char>>)
    ensures
        squeezed_all(gathered(ls).done) + squeezed(gathered(ls).buf) == squeezed_all(ls),
    decreases ls.len(),
{
    let e = Seq::<char>::empty();
    if ls.len() > 0 {
        let line = ls.last();
        let g = gathered(ls.drop_last());
        let after = gathered(ls);
        let feed = seq!['\n'];
        gathered_keep(ls.drop_last());
        squeezed_blank(g.buf);
        squeezed_push(g.done, g.buf);
        if line.len() > MAX_CHARS {
            hard_pieces_keep(line);
            squeezed_lists(g.done, hard_pieces(line));
            squeezed_lists(g.done.push(g.buf), hard_pieces(line));
            assert(squeezed(g.buf).len() == 0 ==> squeezed_all(g.done) + squeezed(g.buf)
                =~= squeezed_all(g.done));
            assert(squeezed_all(after.done) + e =~= squeezed_all(after.done));
        } else if g.buf.len() + line.len() + 1 > TARGET_CHARS {
        } else if g.buf.len() == 0 {
            assert(squeezed_all(g.done) + e =~= squeezed_all(g.done));
        } else {
            squeezed_concat(g.buf, feed);
            squeezed_concat(g.buf + feed, line);
            squeezed_blank(feed);
            assert(g.buf.push('\n') =~= g.buf + feed);
            assert(squeezed(g.buf) + squeezed(feed) =~= squeezed(g.buf));
            assert(squeezed_all(g.done) + (squeezed(g.buf) + squeezed(line)) =~= squeezed_all(
                g.done,
            ) + squeezed(g.buf) + squeezed(line));
        }
    } else {
        assert(squeezed_all(gathered(ls).done) + squeezed(gathered(ls).buf) =~= e);
    }
}

proof fn paragraph_units_keep(para: Seq<char>)
    ensures
        squeezed_all(paragraph_units(para)) == squeezed(para),
{
    let g = gathered(lines(para));
    if para.len() <= MAX_CHARS {
        squeezed_one(para);
    } else {
        lines_keep(para);
        gathered_keep(lines(para));
        squeezed_blank(g.buf);
        squeezed_push(g.done, g.buf);
        assert(squeezed(g.buf).len() == 0 ==> squeezed_all(g.done) + squeezed(g.buf)
            =~= squeezed_all(g.done));
    }
}

proof fn units_keep(paras: Seq<Seq<char>>)
    ensures
        squeezed_all(units_of(paras)) == squeezed_all(paras),
    decreases paras.len(),
{
    if paras.len() > 0 {
        units_keep(paras.drop_last());
        paragraph_units_keep(paras.last());
        squeezed_lists(units_of(paras.drop_last()), paragraph_units(paras.last()));
    }
}

/// A text is a part of itself and of what holds a part that holds it.
pub(crate) proof fn part_of_part(a: Seq<char>, b: Seq<char>, c: Seq<char>)
    requires
        is_part_of(a, b),
        is_part_of(b, c),
    ensures
        is_part_of(a, c),
{
    let (u, v) = choose|u: Seq<char>, v: Seq<char>| b == #[trigger] (u + a + v);
    let (x, y) = choose|x: Seq<char>, y: Seq<char>| c == #[trigger] (x + b + y);
    assert(c =~= (x + u) + a + (v + y));
}

pub(crate) proof fn part_of_longer(a: Seq<char>, b: Seq<char>, more: Seq<char>)
    requires
        is_part_of(a, b),
    ensures
        is_part_of(a, b + more),
{
    let (u, v) = choose|u: Seq<char>, v: Seq<char>| b == #[trigger] (u + a + v);
    assert(b + more =~= u + a + (v + more));
}

pub(crate) proof fn suffix_is_part(a: Seq<char>, b: Seq<char>)
    requires
        a.is_suffix_of(b),
    ensures
        is_part_of(a, b),
{
    assert(b =~= b.take(b.len() - a.len()) + a + seq![]);
}

/// What was packed holds all that the units say, in order; every piece is a part of what
/// they say, and the one being packed is the end of it.
proof fn packed_keep(units: Seq<Seq<char>>)
    ensures
        stands_in_order(
            squeezed_all(units),
            squeezed_all(packed(units).done) + squeezed(packed(units).current),
        ),
        squeezed(packed(units).current).is_suffix_of(squeezed_all(units)),
        forall|i: int|
            0 <= i < packed(units).done.len() ==> is_part_of(
                squeezed(#[trigger] packed(units).done[i]),
                squeezed_all(units),
            ),
    decreases units.len(),
{
    let e = Seq::<char>::empty();
    if units.len() > 0 {
        let unit = units.last();
        let rest = units.drop_last();
        let p = packed(rest);
        let after = packed(units);
        let sep = seq!['\n', '\n'];
        let said = squeezed_all(rest);
        let u = squeezed(unit);
        packed_keep(rest);
        squeezed_push(p.done, p.current);
        squeezed_blank(sep);
        in_order_itself(u);
        let over = p.current.len() > 0 && p.current.len() + unit.len() > TARGET_CHARS;
        let head = if over {
            tail(p.current, OVERLAP_CHARS as nat)
        } else {
            p.current
        };
        squeezed_concat(head, sep);
        squeezed_concat(head + sep, unit);
        assert(squeezed(head) + squeezed(sep) =~= squeezed(head));
        assert(squeezed(after.current) =~= squeezed(head) + u);
        if over {
            let lost = p.current.take(p.current.len() - head.len());
            assert(p.current =~= lost + head);
            squeezed_concat(lost, head);
            in_order_before_more(said, squeezed_all(p.done) + squeezed(p.current), squeezed(head));
            in_order_concat(
                said,
                squeezed_all(p.done) + squeezed(p.current) + squeezed(head),
                u,
                u,
            );
            assert(squeezed_all(after.done) + squeezed(after.current) =~= squeezed_all(p.done)
                + squeezed(p.current) + squeezed(head) + u);
        } else {
            in_order_concat(said, squeezed_all(p.done) + squeezed(p.current), u, u);
            assert(squeezed_all(after.done) + squeezed(after.current) =~= squeezed_all(p.done)
                + squeezed(p.current) + u);
        }
        let c = squeezed(p.current);
        assert(c =~= said.subrange(said.len() - c.len(), said.len() as int));
        let h = squeezed(head);
        assert(h =~= said.subrange(said.len() - h.len(), said.len() as int)) by {
            if over {
                assert(h =~= c.subrange(c.len() - h.len(), c.len() as int));
            }
        }
        let whole = said + u;
        let now = squeezed(after.current);
        assert(now =~= whole.subrange(whole.len() - now.len(), whole.len() as int));
        assert forall|i: int| 0 <= i < after.done.len() implies is_part_of(
            squeezed(#[trigger] after.done[i]),
            whole,
        ) by {
            if i < p.done.len() {
                assert(after.done[i] == p.done[i]);
            } else {
                assert(after.done[i] == p.current);
                suffix_is_part(c, said);
            }
            part_of_longer(squeezed(after.done[i]), said, u);
        }
    } else {
        assert(squeezed(packed(units).current) =~= e);
        assert(squeezed_all(units).subrange(0, 0) =~= e);
    }
}

proof fn cut_keeps(piece: Seq<char>)
    ensures
        squeezed_all(cut(piece)) == squeezed(piece),
{
    if piece.len() <= MAX_CHARS {
        squeezed_one(piece);
    } else {
        hard_pieces_keep(piece);
    }
}

proof fn all_cut_keep(list: Seq<Seq<char>>)
    ensures
        squeezed_all(all_cut(list)) == squeezed_all(list),
    decreases list.len(),
{
    if list.len() > 0 {
        all_cut_keep(list.drop_last());
        cut_keeps(list.last());
        squeezed_lists(all_cut(list.drop_last()), cut(list.last()));
    }
}

/// What a text of a list says is a part of what the list says.
proof fn one_is_part_of_all(list: Seq<Seq<char>>, i: int)
    requires
        0 <= i < list.len(),
    ensures
        is_part_of(squeezed(list[i]), squeezed_all(list)),
    decreases list.len(),
{
    let rest = list.drop_last();
    if i == list.len() - 1 {
        let s = squeezed(list[i]);
        assert(squeezed_all(list) =~= squeezed_all(rest) + s + seq![]);
    } else {
        one_is_part_of_all(rest, i);
        part_of_longer(squeezed(list[i]), squeezed_all(rest), squeezed(list.last()));
    }
}

proof fn all_cut_are_parts(list: Seq<Seq<char>>, whole: Seq<char>)
    requires
        forall|i: int| 0 <= i < list.len() ==> is_part_of(squeezed(#[trigger] list[i]), whole),
    ensures
        forall|i: int|
            0 <= i < all_cut(list).len() ==> is_part_of(
                squeezed(#[trigger] all_cut(list)[i]),
                whole,
            ),
    decreases list.len(),
{
    if list.len() > 0 {
        let rest = list.drop_last();
        let last = list.last();
        assert forall|i: int| 0 <= i < rest.len() implies is_part_of(
            squeezed(#[trigger] rest[i]),
            whole,
        ) by {
            assert(rest[i] == list[i]);
        }
        all_cut_are_parts(rest, whole);
        cut_keeps(last);
        assert(is_part_of(squeezed(list[list.len() - 1]), whole));
        let out = all_cut(list);
        let n = all_cut(rest).len();
        assert forall|i: int| 0 <= i < out.len() implies is_part_of(
            squeezed(#[trigger] out[i]),
            whole,
        ) by {
            if i < n {
                assert(out[i] == all_cut(rest)[i]);
            } else {
                assert(out[i] == cut(last)[i - n]);
                one_is_part_of_all(cut(last), i - n);
                part_of_part(squeezed(out[i]), squeezed(last), whole);
            }
        }
    }
}

/// The pieces of a body hold every character of it that is no white space, in order, and
/// each of them says a part of what the body says and nothing else.
pub proof fn the_pieces_hold_the_body(body: Seq<char>)
    ensures
        stands_in_order(squeezed(body), squeezed_all(body_pieces(body))),
        forall|i: int|
            0 <= i < body_pieces(body).len() ==> is_part_of(
                squeezed(#[trigger] body_pieces(body)[i]),
                squeezed(body),
            ),
{
    let paras = pieces(body, seq!['\n', '\n']);
    let units = body_units(body);
    let p = packed(units);
    let list = if blank(p.current) {
        p.done
    } else {
        p.done.push(p.current)
    };
    pieces_keep(body);
    units_keep(paras);
    packed_keep(units);
    squeezed_blank(p.current);
    squeezed_push(p.done, p.current);
    all_cut_keep(list);
    assert(blank(p.current) ==> squeezed_all(p.done) + squeezed(p.current) =~= squeezed_all(
        p.done,
    ));
    assert forall|i: int| 0 <= i < list.len() implies is_part_of(
        squeezed(#[trigger] list[i]),
        squeezed(body),
    ) by {
        if i < p.done.len() {
            assert(list[i] == p.done[i]);
        } else {
            suffix_is_part(squeezed(p.current), squeezed(body));
        }
    }
    all_cut_are_parts(list, squeezed(body));
}

/// The texts of a list of drafts.
pub open spec fn draft_pieces(drafts: Seq<Draft>) -> Seq<Seq<char>> {
    drafts.map_values(|d: Draft| d.piece)
}

proof fn drafts_keep(path: Seq<char>, list: Seq<Seq<char>>)
    ensures
        squeezed_all(draft_pieces(drafts_of(path, list))) == squeezed_all(list),
        forall|i: int|
            0 <= i < drafts_of(path, list).len() ==> (#[trigger] drafts_of(path, list)[i]).path
                == path && list.contains(drafts_of(path, list)[i].piece) && !blank(
                drafts_of(path, list)[i].piece,
            ),
        forall|i: int|
            0 <= i < list.len() && !blank(#[trigger] list[i]) ==> drafts_of(path, list).contains(
                Draft { path, piece: list[i] },
            ),
    decreases list.len(),
{
    if list.len() > 0 {
        let rest = list.drop_last();
        let before = drafts_of(path, rest);
        let out = drafts_of(path, list);
        let n = list.len() - 1;
        drafts_keep(path, rest);
        squeezed_blank(list.last());
        if blank(list.last()) {
            assert(squeezed_all(rest) + squeezed(list.last()) =~= squeezed_all(rest));
        } else {
            assert(draft_pieces(out).drop_last() =~= draft_pieces(before));
        }
        assert forall|i: int| 0 <= i < out.len() implies (#[trigger] out[i]).path == path
            && list.contains(out[i].piece) && !blank(out[i].piece) by {
            if i < before.len() {
                assert(out[i] == before[i]);
                let k = choose|k: int| 0 <= k < rest.len() && rest[k] == before[i].piece;
                assert(list[k] == out[i].piece);
            } else {
                assert(list[n] == out[i].piece);
            }
        }
        assert forall|i: int| 0 <= i < list.len() && !blank(#[trigger] list[i]) implies out.contains(
            Draft { path, piece: list[i] },
        ) by {
            let d = Draft { path, piece: list[i] };
            if i < n {
                assert(rest[i] == list[i]);
                assert(before.contains(d));
                let k = choose|k: int| 0 <= k < before.len() && before[k] == d;
                assert(out[k] == d);
            } else {
                assert(out[before.len() as int] == d);
            }
        }
    } else {
        assert(draft_pieces(drafts_of(path, list)) =~= seq![]);
    }
}

/// The texts of a list of sections.
pub open spec fn section_bodies(sections: Seq<Section>) -> Seq<Seq<char>> {
    sections.map_values(|s: Section| s.body)
}

proof fn trimmed_says_the_same(s: Seq<char>)
    ensures
        squeezed(trimmed(s)) == squeezed(s),
{
    trimmed_parts(s);
    let (u, v) = choose|u: Seq<char>, v: Seq<char>|
        s == #[trigger] (u + trimmed(s) + v) && blank(u) && blank(v);
    squeezed_concat(u, trimmed(s));
    squeezed_concat(u + trimmed(s), v);
    squeezed_blank(u);
    squeezed_blank(v);
    assert(squeezed(u) + squeezed(trimmed(s)) + squeezed(v) =~= squeezed(trimmed(s)));
}

/// A text is its trimmed part between white space.
proof fn trimmed_parts(s: Seq<char>)
    ensures
        exists|u: Seq<char>, v: Seq<char>|
            s == #[trigger] (u + trimmed(s) + v) && blank(u) && blank(v),
{
    let t = trimmed_start(s);
    start_parts(s);
    end_parts(t);
    let u = choose|u: Seq<char>| s == #[trigger] (u + t) && blank(u);
    let v = choose|v: Seq<char>| t == #[trigger] (trimmed_end(t) + v) && blank(v);
    assert(s =~= u + trimmed(s) + v);
}

proof fn start_parts(s: Seq<char>)
    ensures
        exists|u: Seq<char>| s == #[trigger] (u + trimmed_start(s)) && blank(u),
    decreases s.len(),
{
    let e = Seq::<char>::empty();
    if s.len() > 0 && white_space(s[0]) {
        start_parts(s.skip(1));
        let u = choose|u: Seq<char>|
            s.skip(1) == #[trigger] (u + trimmed_start(s.skip(1))) && blank(u);
        let w = seq![s[0]] + u;
        let t = trimmed_start(s);
        assert(s =~= seq![s[0]] + s.skip(1));
        assert(s =~= seq![s[0]] + (u + t));
        assert(seq![s[0]] + (u + t) =~= w + t);
        blank_concat(seq![s[0]], u);
        assert(blank(seq![s[0]]));
    } else {
        assert(s =~= e + trimmed_start(s));
    }
}

proof fn end_parts(s: Seq<char>)
    ensures
        exists|v: Seq<char>| s == #[trigger] (trimmed_end(s) + v) && blank(v),
    decreases s.len(),
{
    let e = Seq::<char>::empty();
    if s.len() > 0 && white_space(s.last()) {
        end_parts(s.drop_last());
        let v = choose|v: Seq<char>|
            s.drop_last() == #[trigger] (trimmed_end(s.drop_last()) + v) && blank(v);
        let w = v + seq![s.last()];
        let t = trimmed_end(s);
        assert(s =~= s.drop_last() + seq![s.last()]);
        assert(s =~= (t + v) + seq![s.last()]);
        assert((t + v) + seq![s.last()] =~= t + w);
        blank_concat(v, seq![s.last()]);
        assert(blank(seq![s.last()]));
    } else {
        assert(s =~= trimmed_end(s) + e);
    }
}

proof fn all_drafts_keep(sections: Seq<Section>)
    ensures
        stands_in_order(
            squeezed_all(section_bodies(sections)),
            squeezed_all(draft_pieces(all_drafts(sections))),
        ),
        forall|k: int|
            0 <= k < all_drafts(sections).len() ==> is_of_a_section(
                sections,
                #[trigger] all_drafts(sections)[k],
            ),
    decreases sections.len(),
{
    if sections.len() > 0 {
        let rest = sections.drop_last();
        let s = sections.last();
        let list = body_pieces(trimmed(s.body));
        let before = all_drafts(rest);
        let out = all_drafts(sections);
        all_drafts_keep(rest);
        the_pieces_hold_the_body(trimmed(s.body));
        trimmed_says_the_same(s.body);
        drafts_keep(s.path, list);
        in_order_concat(
            squeezed_all(section_bodies(rest)),
            squeezed_all(draft_pieces(before)),
            squeezed(s.body),
            squeezed_all(draft_pieces(section_drafts(s))),
        );
        assert(section_bodies(sections).drop_last() =~= section_bodies(rest));
        squeezed_lists(draft_pieces(before), draft_pieces(section_drafts(s)));
        assert(draft_pieces(out) =~= draft_pieces(before) + draft_pieces(section_drafts(s)));
        assert forall|k: int| 0 <= k < out.len() implies is_of_a_section(
            sections,
            #[trigger] out[k],
        ) by {
            if k < before.len() {
                assert(out[k] == before[k]);
                let i = choose|i: int|
                    0 <= i < rest.len() && (#[trigger] rest[i]).path == before[k].path
                        && is_part_of(squeezed(before[k].piece), squeezed(rest[i].body));
                assert(sections[i] == rest[i]);
            } else {
                let d = section_drafts(s)[k - before.len()];
                assert(out[k] == d);
                let j = choose|j: int| 0 <= j < list.len() && list[j] == d.piece;
                assert(is_part_of(squeezed(list[j]), squeezed(trimmed(s.body))));
                assert(sections[sections.len() - 1] == s);
            }
        }
    } else {
        assert(section_bodies(sections) =~= seq![]);
    }
}

/// A draft is of one of the sections: it has its path, says something, and says a part of
/// what it says.
pub open spec fn is_of_a_section(sections: Seq<Section>, d: Draft) -> bool {
    !blank(d.piece) && exists|i: int|
        0 <= i < sections.len() && (#[trigger] sections[i]).path == d.path && is_part_of(
            squeezed(d.piece),
            squeezed(sections[i].body),
        )
}

/// What the lines of a note say, without its headings. A line that looks like a heading
/// and stands in a fence is none.
pub open spec fn said_below_headings(ls: Seq<Seq<char>>) -> Seq<char>
    decreases ls.len(),
{
    if ls.len() == 0 {
        seq![]
    } else if heading_level(ls.last()) is Some && !fenced_after(false, ls) {
        said_below_headings(ls.drop_last())
    } else {
        said_below_headings(ls.drop_last()) + squeezed(ls.last())
    }
}

proof fn closed_keeps(ls: Seq<Seq<char>>)
    ensures
        squeezed_all(section_bodies(closed_sections(sectioned(ls)))) == squeezed_all(
            section_bodies(sectioned(ls).sections),
        ) + squeezed(sectioned(ls).body),
{
    let s = sectioned(ls);
    squeezed_blank(s.body);
    if blank(s.body) {
        assert(squeezed_all(section_bodies(s.sections)) + squeezed(s.body) =~= squeezed_all(
            section_bodies(s.sections),
        ));
    } else {
        assert(section_bodies(closed_sections(s)).drop_last() =~= section_bodies(s.sections));
    }
}

proof fn sections_keep(ls: Seq<Seq<char>>)
    ensures
        squeezed_all(section_bodies(sectioned(ls).sections)) + squeezed(sectioned(ls).body)
            == said_below_headings(ls),
    decreases ls.len(),
{
    let e = Seq::<char>::empty();
    let s = sectioned(ls);
    if ls.len() > 0 {
        let line = ls.last();
        let before = sectioned(ls.drop_last());
        sections_keep(ls.drop_last());
        closed_keeps(ls.drop_last());
        sectioned_is_read_on(ls);
        sectioned_is_read_on(ls.drop_last());
        read_on_fence(no_sections(), ls);
        if heading_level(line) is Some && !s.in_fence {
            assert(squeezed(s.body) =~= e);
            assert(squeezed_all(section_bodies(s.sections)) + e =~= squeezed_all(
                section_bodies(s.sections),
            ));
        } else {
            let feed = seq!['\n'];
            squeezed_concat(before.body, line.push('\n'));
            squeezed_concat(line, feed);
            squeezed_blank(feed);
            assert(line.push('\n') =~= line + feed);
            assert(squeezed(line) + squeezed(feed) =~= squeezed(line));
            assert(squeezed_all(section_bodies(s.sections)) + squeezed(s.body) =~= squeezed_all(
                section_bodies(before.sections),
            ) + squeezed(before.body) + squeezed(line));
        }
    } else {
        assert(section_bodies(s.sections) =~= seq![]);
        assert(squeezed_all(section_bodies(s.sections)) + squeezed(s.body) =~= e);
    }
}

/// The texts of a list of chunks.
pub open spec fn texts_of_chunks(chunks: Seq<ChunkView>) -> Seq<Seq<char>> {
    chunks.map_values(|c: ChunkView| c.text)
}

proof fn chunks_keep(title: Seq<char>, drafts: Seq<Draft>)
    ensures
        stands_in_order(
            squeezed_all(draft_pieces(drafts)),
            squeezed_all(texts_of_chunks(chunks_of(title, drafts))),
        ),
    decreases drafts.len(),
{
    let chunks = chunks_of(title, drafts);
    if drafts.len() > 0 {
        let rest = drafts.drop_last();
        let d = drafts.last();
        let header = context_header(title, d.path) + "\n\n"@;
        let text = chunks.last().text;
        chunks_keep(title, rest);
        assert(text == header + d.piece);
        squeezed_concat(header, d.piece);
        in_order_behind(squeezed(d.piece), squeezed(header));
        assert(draft_pieces(drafts).drop_last() =~= draft_pieces(rest));
        assert(texts_of_chunks(chunks).drop_last() =~= texts_of_chunks(
            chunks_of(title, rest),
        ));
        in_order_concat(
            squeezed_all(draft_pieces(rest)),
            squeezed_all(texts_of_chunks(chunks_of(title, rest))),
            squeezed(d.piece),
            squeezed(text),
        );
    } else {
        assert(draft_pieces(drafts) =~= seq![]);
    }
}

/// Whatever a note says below its headings is in its chunks: every character of its body
/// that is no white space stands in their texts, in order, however long the note.
pub proof fn nothing_that_a_note_says_is_lost(title: Seq<char>, source: Seq<char>)
    ensures
        stands_in_order(
            said_below_headings(lines(source).skip(body_start(lines(source)))),
            squeezed_all(texts_of_chunks(note_chunks(title, source))),
        ),
{
    let ls = lines(source).skip(body_start(lines(source)));
    let sections = note_sections(source);
    let drafts = all_drafts(sections);
    sections_keep(ls);
    closed_keeps(ls);
    all_drafts_keep(sections);
    chunks_keep(title, drafts);
    in_order_through(
        said_below_headings(ls),
        squeezed_all(draft_pieces(drafts)),
        squeezed_all(texts_of_chunks(note_chunks(title, source))),
    );
}

proof fn in_order_through(a: Seq<char>, b: Seq<char>, c: Seq<char>)
    requires
        stands_in_order(a, b),
        stands_in_order(b, c),
    ensures
        stands_in_order(a, c),
    decreases b.len() + c.len(),
{
    if a.len() > 0 {
        if b.last() == c.last() && stands_in_order(b.drop_last(), c.drop_last()) {
            if a.last() == b.last() && stands_in_order(a.drop_last(), b.drop_last()) {
                in_order_through(a.drop_last(), b.drop_last(), c.drop_last());
            } else {
                in_order_through(a, b.drop_last(), c.drop_last());
            }
        } else {
            in_order_through(a, b, c.drop_last());
        }
    }
}

/// A chunk says a part of what one section says, under that section's path and behind the
/// note's title: nothing is made up, and nothing stands under another section's headings.
pub proof fn a_chunk_says_a_part_of_its_section(title: Seq<char>, source: Seq<char>, k: int)
    requires
        0 <= k < note_chunks(title, source).len(),
    ensures
        ({
            let chunk = note_chunks(title, source)[k];
            exists|i: int, piece: Seq<char>|
                0 <= i < note_sections(source).len() && (
                #[trigger] note_sections(source)[i]).path == chunk.heading_path && chunk.text == (
                if chunk.heading_path.len() == 0 {
                    title
                } else {
                    title + " > "@ + chunk.heading_path
                }) + "\n\n"@ + piece && !blank(piece) && #[trigger] is_part_of(
                    squeezed(piece),
                    squeezed(note_sections(source)[i].body),
                )
        }),
{
    let sections = note_sections(source);
    let drafts = all_drafts(sections);
    all_drafts_keep(sections);
    let d = drafts[k];
    assert(note_chunks(title, source)[k] == chunk_of(title, k, d));
    assert(is_of_a_section(sections, d));
    let i = choose|i: int|
        0 <= i < sections.len() && (#[trigger] sections[i]).path == d.path && is_part_of(
            squeezed(d.piece),
            squeezed(sections[i].body),
        );
    assert(sections[i].path == d.path && is_part_of(squeezed(d.piece), squeezed(sections[i].body)));
}

/// Every piece of a section that says something is a chunk under the section's path.
pub proof fn every_piece_is_a_chunk(
    title: Seq<char>,
    source: Seq<char>,
    i: int,
    piece: Seq<char>,
)
    requires
        0 <= i < note_sections(source).len(),
        body_pieces(trimmed(note_sections(source)[i].body)).contains(piece),
        !blank(piece),
    ensures
        is_chunked(note_chunks(title, source), title, note_sections(source)[i].path, piece),
{
    let sections = note_sections(source);
    let s = sections[i];
    let list = body_pieces(trimmed(s.body));
    drafts_keep(s.path, list);
    let k = choose|k: int| 0 <= k < list.len() && list[k] == piece;
    assert(!blank(list[k]));
    let d = Draft { path: s.path, piece };
    assert(section_drafts(s).contains(d));
    section_drafts_are_drafts(sections, i, d);
    let j = choose|j: int| 0 <= j < all_drafts(sections).len() && all_drafts(sections)[j] == d;
    assert(note_chunks(title, source)[j] == chunk_of(title, j, d));
}

proof fn section_drafts_are_drafts(sections: Seq<Section>, i: int, d: Draft)
    requires
        0 <= i < sections.len(),
        section_drafts(sections[i]).contains(d),
    ensures
        all_drafts(sections).contains(d),
    decreases sections.len(),
{
    let rest = sections.drop_last();
    let before = all_drafts(rest);
    let out = all_drafts(sections);
    if i < rest.len() {
        section_drafts_are_drafts(rest, i, d);
        let k = choose|k: int| 0 <= k < before.len() && before[k] == d;
        assert(out[k] == d);
    } else {
        let own = section_drafts(sections[i]);
        let k = choose|k: int| 0 <= k < own.len() && own[k] == d;
        assert(out[before.len() + k] == d);
    }
}

/// A section that fits is not split: it is one chunk, which holds its text as it stands.
pub proof fn a_short_section_is_one_chunk(s: Section)
    requires
        !blank(s.body),
        trimmed(s.body).len() <= TARGET_CHARS,
    ensures
        section_drafts(s) == seq![Draft { path: s.path, piece: trimmed(s.body) }],
{
    let t = trimmed(s.body);
    trimmed_is(s.body);
    squeezed_blank(t);
    squeezed_blank(s.body);
    trimmed_says_the_same(s.body);
    assert(t.len() > 0);
    assert(!white_space(t[0]));
    assert(!stands_at(t, seq!['\n', '\n'], 0)) by {
        if stands_at(t, seq!['\n', '\n'], 0) {
            assert(t.subrange(0, 2)[0] == t[0]);
        }
    }
    a_short_query_is_one_unit_unchanged(t, 1);
    assert(query_units(t, 1) == seq![t]);
    let list = body_pieces(t);
    assert(list =~= seq![t]) by {
        if list.len() > 1 {
            one_unit_is_short(t);
        }
    }
    assert(list.drop_last() =~= seq![]);
    assert(drafts_of(s.path, list.drop_last()) =~= seq![]);
    assert(section_drafts(s) =~= seq![Draft { path: s.path, piece: t }]);
}

/// A text that is one unit under a larger cap is one piece.
proof fn one_unit_is_short(t: Seq<char>)
    requires
        !blank(t),
        !stands_at(t, seq!['\n', '\n'], 0),
        t.len() <= TARGET_CHARS,
    ensures
        body_pieces(t).len() == 1,
{
    let n = body_pieces(t).len();
    a_short_query_is_one_unit_unchanged(t, n + 1);
}

/// Each piece that is packed opens on the end of the one before it, so that a fact which
/// spans the cut is in one of the two.
pub proof fn a_piece_opens_on_the_end_of_the_one_before(units: Seq<Seq<char>>, i: int)
    requires
        0 <= i < packed(units).done.len(),
    ensures
        ({
            let p = packed(units);
            let all = p.done.push(p.current);
            tail(all[i], OVERLAP_CHARS as nat).is_prefix_of(all[i + 1])
        }),
    decreases units.len(),
{
    let p = packed(units);
    let all = p.done.push(p.current);
    let rest = units.drop_last();
    let q = packed(rest);
    let before = q.done.push(q.current);
    let end = tail(all[i], OVERLAP_CHARS as nat);
    if i < q.done.len() {
        a_piece_opens_on_the_end_of_the_one_before(rest, i);
        assert(all[i] == before[i]);
        assert(end =~= before[i + 1].subrange(0, end.len() as int));
        if i + 1 < q.done.len() || p.done.len() > q.done.len() {
            assert(all[i + 1] == before[i + 1]);
        } else {
            assert(end =~= all[i + 1].subrange(0, end.len() as int));
        }
    } else {
        assert(all[i] == q.current);
        assert(end =~= all[i + 1].subrange(0, end.len() as int));
    }
}

/// A piece that one of the units would take beyond the target.
pub open spec fn is_filled(piece: Seq<char>, units: Seq<Seq<char>>) -> bool {
    exists|k: int| 0 <= k < units.len() && piece.len() + (#[trigger] units[k]).len() > 1200
}

/// A piece that is one unit behind the end of the piece before it.
pub open spec fn is_one_unit(piece: Seq<char>, units: Seq<Seq<char>>) -> bool {
    exists|k: int|
        0 <= k < units.len() && (#[trigger] units[k]).is_suffix_of(piece) && piece.len() <= 202
            + units[k].len()
}

/// A piece is ended only where what follows would take it beyond the target, and only a
/// unit that is itself long takes one beyond it: a piece of more is one unit behind the end
/// of the piece before.
pub proof fn pieces_are_filled_to_the_target(units: Seq<Seq<char>>)
    ensures
        ({
            let p = packed(units);
            let all = p.done.push(p.current);
            &&& forall|i: int| 0 <= i < p.done.len() ==> is_filled(#[trigger] p.done[i], units)
            &&& forall|i: int|
                0 <= i < all.len() && (#[trigger] all[i]).len() > 1202 ==> is_one_unit(
                    all[i],
                    units,
                )
        }),
    decreases units.len(),
{
    let p = packed(units);
    let all = p.done.push(p.current);
    if units.len() > 0 {
        let rest = units.drop_last();
        let n = units.len() - 1;
        let unit = units[n];
        let q = packed(rest);
        let before = q.done.push(q.current);
        pieces_are_filled_to_the_target(rest);
        assert forall|i: int| 0 <= i < p.done.len() implies is_filled(
            #[trigger] p.done[i],
            units,
        ) by {
            if i < q.done.len() {
                assert(p.done[i] == q.done[i]);
                let k = choose|k: int|
                    0 <= k < rest.len() && q.done[i].len() + (#[trigger] rest[k]).len() > 1200;
                assert(rest[k] == units[k]);
            } else {
                assert(p.done[i].len() + units[n].len() > 1200);
            }
        }
        assert forall|i: int| 0 <= i < all.len() && (#[trigger] all[i]).len()
            > 1202 implies is_one_unit(all[i], units) by {
            if i < p.done.len() {
                assert(all[i] == before[i]);
                let k = choose|k: int|
                    0 <= k < rest.len() && (#[trigger] rest[k]).is_suffix_of(before[i])
                        && before[i].len() <= 202 + rest[k].len();
                assert(rest[k] == units[k]);
            } else {
                assert(all[i] == p.current);
                assert(unit =~= p.current.subrange(
                    p.current.len() - unit.len(),
                    p.current.len() as int,
                ));
                assert(units[n].is_suffix_of(all[i]));
            }
        }
    } else {
        assert(all[0].len() == 0);
    }
}

/// A text that is cut hard is cut every two thousand characters: each piece but the last
/// has as many, and together they are the text.
pub proof fn a_hard_cut_is_made_only_where_it_must(s: Seq<char>, i: int)
    requires
        0 <= i < hard_pieces(s).len(),
    ensures
        hard_pieces(s).flatten() == s,
        i < hard_pieces(s).len() - 1 ==> hard_pieces(s)[i].len() == 2000,
        0 < hard_pieces(s)[i].len() <= 2000,
    decreases s.len(),
{
    let all = hard_pieces(s);
    if s.len() <= 2000 {
        assert(all.drop_first() =~= Seq::<Seq<char>>::empty());
        assert(all.drop_first().flatten() =~= Seq::<char>::empty());
        assert(all.flatten() == all[0] + all.drop_first().flatten());
        assert(all.flatten() =~= s);
    } else {
        let head = s.take(2000);
        let rest = s.skip(2000);
        let more = hard_pieces(rest);
        assert(all =~= seq![head] + more);
        assert(more.len() > 0);
        a_hard_cut_is_made_only_where_it_must(
            rest,
            if i > 0 {
                i - 1
            } else {
                0
            },
        );
        assert(all.drop_first() =~= more);
        assert(all.flatten() == head + more.flatten());
        assert(head + rest =~= s);
    }
}

/// A line with which a unit would pass the target, or that is too long to be gathered.
pub open spec fn is_closed_by(unit: Seq<char>, ls: Seq<Seq<char>>) -> bool {
    exists|k: int|
        0 <= k < ls.len() && (unit.len() + (#[trigger] ls[k]).len() + 1 > 1200 || ls[k].len() > 2000)
}

/// Lines are gathered to the target: what is gathered is never longer, unless it is one
/// line, and it is ended only by a line that would take it beyond.
pub proof fn lines_are_gathered_to_the_target(ls: Seq<Seq<char>>)
    ensures
        gathered(ls).buf.len() <= 1200 || ls.contains(gathered(ls).buf),
        forall|i: int|
            0 <= i < gathered(ls).done.len() ==> is_closed_by(#[trigger] gathered(ls).done[i], ls),
    decreases ls.len(),
{
    let g = gathered(ls);
    if ls.len() > 0 {
        let rest = ls.drop_last();
        let n = ls.len() - 1;
        let before = gathered(rest);
        lines_are_gathered_to_the_target(rest);
        assert(ls[n] == ls.last());
        assert forall|i: int| 0 <= i < g.done.len() implies is_closed_by(#[trigger] g.done[i], ls) by {
            if i < before.done.len() {
                assert(g.done[i] == before.done[i]);
                let k = choose|k: int|
                    0 <= k < rest.len() && (before.done[i].len() + (#[trigger] rest[k]).len() + 1
                        > 1200 || rest[k].len() > 2000);
                assert(rest[k] == ls[k]);
            } else {
                assert(g.done[i].len() + ls[n].len() + 1 > 1200 || ls[n].len() > 2000);
            }
        }
        if g.buf == before.buf && before.buf.len() > 1200 {
            let k = choose|k: int| 0 <= k < rest.len() && rest[k] == before.buf;
            assert(ls[k] == before.buf);
        }
    }
}

/// The end of a text is its last characters, as many as are asked for or there are.
pub proof fn an_end_is_the_last_characters(s: Seq<char>, n: nat)
    ensures
        tail(s, n).is_suffix_of(s),
        tail(s, n).len() == if n < s.len() {
            n
        } else {
            s.len()
        },
{
    let t = tail(s, n);
    assert(t =~= s.subrange(s.len() - t.len(), s.len() as int));
}

} // verus!
