//! What holds of every note that is chunked and every query that is split.
use vstd::prelude::*;
use crate::chunk::{
    all_cut, all_drafts, all_fit, body_pieces, body_pieces_fit, body_start, body_units, chunk_of,
    closed_sections, context_header, cut, drafts_of, entities_of, gather_line, gathered,
    hard_pieces, link_targets, note_chunks, note_sections, pack_unit, packed, paragraph_units,
    query_units, section_drafts, sectioned, sorted_distinct_is_sorted, tail, units_of, ChunkView,
    Packing, Section, MAX_CHARS, OVERLAP_CHARS, TARGET_CHARS,
};
use crate::line_laws::trimmed_is;
use crate::order::ascending;
use crate::text::{
    blank, first, first_bounds, found, found_is_first, joined, lines, pieces, stands_at, trimmed,
    white_space, without_return,
};

verus! {

/// Two texts put together are blank where both are.
pub proof fn blank_concat(a: Seq<char>, b: Seq<char>)
    ensures
        blank(a + b) <==> blank(a) && blank(b),
{
    if blank(a + b) {
        assert forall|i: int| 0 <= i < a.len() implies white_space(#[trigger] a[i]) by {
            assert((a + b)[i] == a[i]);
        }
        assert forall|i: int| 0 <= i < b.len() implies white_space(#[trigger] b[i]) by {
            assert((a + b)[i + a.len()] == b[i]);
        }
    }
    if blank(a) && blank(b) {
        assert forall|i: int| 0 <= i < (a + b).len() implies white_space(
            #[trigger] (a + b)[i],
        ) by {
            if i < a.len() {
                assert(white_space(a[i]));
            } else {
                assert(white_space(b[i - a.len()]));
            }
        }
    }
}

/// The last character of a text that is no white space.
pub open spec fn last_said(s: Seq<char>) -> Option<char>
    decreases s.len(),
{
    if s.len() == 0 {
        None
    } else if white_space(s.last()) {
        last_said(s.drop_last())
    } else {
        Some(s.last())
    }
}

/// The last character of a list of texts that is no white space.
pub open spec fn last_said_in(list: Seq<Seq<char>>) -> Option<char>
    decreases list.len(),
{
    if list.len() == 0 {
        None
    } else if last_said(list.last()) is Some {
        last_said(list.last())
    } else {
        last_said_in(list.drop_last())
    }
}

/// What is said last of two things: the second, or the first where the second is nothing.
spec fn later(a: Option<char>, b: Option<char>) -> Option<char> {
    if b is Some {
        b
    } else {
        a
    }
}

proof fn said_or_blank(s: Seq<char>)
    ensures
        last_said(s) is None <==> blank(s),
    decreases s.len(),
{
    if s.len() > 0 {
        said_or_blank(s.drop_last());
        assert(s =~= s.drop_last() + seq![s.last()]);
        blank_concat(s.drop_last(), seq![s.last()]);
        assert(seq![s.last()][0] == s.last());
    }
}

proof fn said_in_both(a: Seq<char>, b: Seq<char>)
    ensures
        last_said(a + b) == later(last_said(a), last_said(b)),
    decreases b.len(),
{
    if b.len() == 0 {
        assert(a + b =~= a);
    } else {
        said_in_both(a, b.drop_last());
        assert((a + b).drop_last() =~= a + b.drop_last());
    }
}

proof fn said_in_lists(a: Seq<Seq<char>>, b: Seq<Seq<char>>)
    ensures
        last_said_in(a + b) == later(last_said_in(a), last_said_in(b)),
    decreases b.len(),
{
    if b.len() == 0 {
        assert(a + b =~= a);
    } else {
        said_in_lists(a, b.drop_last());
        assert((a + b).drop_last() =~= a + b.drop_last());
    }
}

proof fn said_in_one(s: Seq<char>)
    ensures
        last_said_in(seq![s]) == last_said(s),
{
    assert(seq![s].drop_last() =~= seq![]);
    assert(last_said_in(seq![s].drop_last()) is None);
}

proof fn said_by_one_more(list: Seq<Seq<char>>, s: Seq<char>)
    ensures
        last_said_in(list.push(s)) == later(last_said_in(list), last_said(s)),
{
    assert(list.push(s).drop_last() =~= list);
}

proof fn hard_pieces_say(s: Seq<char>)
    ensures
        last_said_in(hard_pieces(s)) == last_said(s),
    decreases s.len(),
{
    if s.len() > MAX_CHARS {
        let head = s.take(MAX_CHARS as int);
        let rest = s.skip(MAX_CHARS as int);
        hard_pieces_say(rest);
        said_in_one(head);
        said_in_lists(seq![head], hard_pieces(rest));
        said_in_both(head, rest);
        assert(s =~= head + rest);
    } else if s.len() > 0 {
        said_in_one(s);
    }
}

proof fn lines_say(s: Seq<char>)
    ensures
        last_said_in(lines(s)) == last_said(s),
    decreases s.len(),
{
    if s.len() > 0 {
        first_bounds(s, '\n');
        let n = first(s, '\n') as int;
        if n < s.len() {
            let head = s.take(n);
            let rest = s.skip(n + 1);
            let feed = seq!['\n'];
            lines_say(rest);
            said_in_one(without_return(head));
            said_in_lists(seq![without_return(head)], lines(rest));
            said_in_both(head, feed);
            said_in_both(head + feed, rest);
            said_or_blank(feed);
            assert(s =~= head + feed + rest);
        } else {
            said_in_one(s);
        }
    }
}

proof fn pieces_say(s: Seq<char>)
    ensures
        last_said_in(pieces(s, seq!['\n', '\n'])) == last_said(s),
    decreases s.len(),
{
    let sep = seq!['\n', '\n'];
    found_is_first(s, sep, 0);
    match found(s, sep, 0) {
        Some(k) if 0 <= k && k + sep.len() <= s.len() => {
            let head = s.take(k);
            let rest = s.skip(k + sep.len());
            pieces_say(rest);
            said_in_one(head);
            said_in_lists(seq![head], pieces(rest, sep));
            said_in_both(head, sep);
            said_in_both(head + sep, rest);
            said_or_blank(sep);
            assert(s =~= head + sep + rest) by {
                assert(s.subrange(k, k + sep.len()) == sep);
            }
        },
        _ => {
            assert(pieces(s, sep) =~= seq![s]);
            said_in_one(s);
        },
    }
}

proof fn gathered_say(ls: Seq<Seq<char>>)
    ensures
        later(last_said_in(gathered(ls).done), last_said(gathered(ls).buf)) == last_said_in(ls),
    decreases ls.len(),
{
    if ls.len() > 0 {
        let line = ls.last();
        let g = gathered(ls.drop_last());
        gathered_say(ls.drop_last());
        said_or_blank(g.buf);
        said_by_one_more(g.done, g.buf);
        hard_pieces_say(line);
        said_in_lists(g.done, hard_pieces(line));
        said_in_lists(g.done.push(g.buf), hard_pieces(line));
        said_in_both(g.buf.push('\n'), line);
        said_or_blank(seq!['\n']);
        said_in_both(g.buf, seq!['\n']);
        assert(g.buf.push('\n') =~= g.buf + seq!['\n']);
    }
}

proof fn paragraph_units_say(para: Seq<char>)
    ensures
        last_said_in(paragraph_units(para)) == last_said(para),
{
    let g = gathered(lines(para));
    if para.len() <= MAX_CHARS {
        said_in_one(para);
    } else {
        lines_say(para);
        gathered_say(lines(para));
        said_or_blank(g.buf);
        said_by_one_more(g.done, g.buf);
    }
}

proof fn units_say(paras: Seq<Seq<char>>)
    ensures
        last_said_in(units_of(paras)) == last_said_in(paras),
    decreases paras.len(),
{
    if paras.len() > 0 {
        units_say(paras.drop_last());
        paragraph_units_say(paras.last());
        said_in_lists(units_of(paras.drop_last()), paragraph_units(paras.last()));
    }
}

/// The end of a text says what the text says last, or nothing.
proof fn tail_says(s: Seq<char>, n: nat)
    ensures
        last_said(tail(s, n)) is Some ==> last_said(tail(s, n)) == last_said(s),
{
    if s.len() > n {
        said_in_both(s.take(s.len() - n), tail(s, n));
        assert(s =~= s.take(s.len() - n) + tail(s, n));
    }
}

proof fn packed_say(units: Seq<Seq<char>>)
    ensures
        later(last_said_in(packed(units).done), last_said(packed(units).current))
            == last_said_in(units),
    decreases units.len(),
{
    if units.len() > 0 {
        let unit = units.last();
        let p = packed(units.drop_last());
        let sep = seq!['\n', '\n'];
        packed_say(units.drop_last());
        said_by_one_more(p.done, p.current);
        let head = tail(p.current, OVERLAP_CHARS as nat);
        tail_says(p.current, OVERLAP_CHARS as nat);
        said_or_blank(sep);
        said_in_both(head, sep);
        said_in_both(head + sep, unit);
        said_in_both(p.current, sep);
        said_in_both(p.current + sep, unit);
    }
}

proof fn all_cut_say(list: Seq<Seq<char>>)
    ensures
        last_said_in(all_cut(list)) == last_said_in(list),
    decreases list.len(),
{
    if list.len() > 0 {
        all_cut_say(list.drop_last());
        hard_pieces_say(list.last());
        said_in_one(list.last());
        said_in_lists(all_cut(list.drop_last()), cut(list.last()));
    }
}

/// Splitting keeps what a text says last: the last piece that says anything ends on it,
/// white space aside.
pub proof fn the_pieces_say_last_what_the_text_says_last(body: Seq<char>)
    ensures
        last_said_in(body_pieces(body)) == last_said(body),
{
    let paras = pieces(body, seq!['\n', '\n']);
    let p = packed(body_units(body));
    pieces_say(body);
    units_say(paras);
    packed_say(body_units(body));
    said_or_blank(p.current);
    said_by_one_more(p.done, p.current);
    all_cut_say(p.done);
    all_cut_say(p.done.push(p.current));
}

/// A list that says something last has a text that says something.
proof fn some_text_says(list: Seq<Seq<char>>)
    requires
        last_said_in(list) is Some,
    ensures
        exists|i: int| 0 <= i < list.len() && !blank(#[trigger] list[i]),
    decreases list.len(),
{
    said_or_blank(list.last());
    if last_said(list.last()) is Some {
        assert(!blank(list[list.len() - 1]));
    } else {
        some_text_says(list.drop_last());
        let i = choose|i: int|
            0 <= i < list.drop_last().len() && !blank(#[trigger] list.drop_last()[i]);
        assert(!blank(list[i]));
    }
}

/// A body that says something has a piece that says something.
pub proof fn splitting_never_silences_a_body(body: Seq<char>)
    requires
        !blank(body),
    ensures
        exists|i: int| 0 <= i < body_pieces(body).len() && !blank(#[trigger] body_pieces(body)[i]),
{
    said_or_blank(body);
    the_pieces_say_last_what_the_text_says_last(body);
    some_text_says(body_pieces(body));
}


proof fn sections_say(ls: Seq<Seq<char>>)
    ensures
        forall|i: int|
            0 <= i < closed_sections(sectioned(ls)).len() ==> !blank(
                (#[trigger] closed_sections(sectioned(ls))[i]).body,
            ),
    decreases ls.len(),
{
    if ls.len() > 0 {
        sections_say(ls.drop_last());
        let before = sectioned(ls.drop_last());
        let s = sectioned(ls);
        let c = closed_sections(s);
        assert forall|i: int| 0 <= i < c.len() implies !blank((#[trigger] c[i]).body) by {
            let b = closed_sections(before);
            if i < s.sections.len() {
                assert(c[i] == s.sections[i]);
                if s.sections == b {
                    assert(!blank(b[i].body));
                } else {
                    assert(s.sections == before.sections);
                    assert(b[i] == before.sections[i]);
                    assert(!blank(b[i].body));
                }
            }
        }
    }
}

proof fn drafts_say(path: Seq<char>, list: Seq<Seq<char>>)
    ensures
        last_said_in(list) is Some ==> drafts_of(path, list).len() > 0,
        forall|i: int|
            0 <= i < drafts_of(path, list).len() ==> (#[trigger] drafts_of(path, list)[i]).path
                == path && list.contains(drafts_of(path, list)[i].piece) && !blank(
                drafts_of(path, list)[i].piece,
            ),
    decreases list.len(),
{
    if list.len() > 0 {
        let rest = list.drop_last();
        drafts_say(path, rest);
        said_or_blank(list.last());
        let d = drafts_of(path, list);
        assert forall|i: int| 0 <= i < d.len() implies (#[trigger] d[i]).path == path
            && list.contains(d[i].piece) && !blank(d[i].piece) by {
            if i < drafts_of(path, rest).len() {
                let piece = drafts_of(path, rest)[i].piece;
                assert(d[i] == drafts_of(path, rest)[i]);
                assert(rest.contains(piece));
                let k = choose|k: int| 0 <= k < rest.len() && rest[k] == piece;
                assert(list[k] == piece);
            } else {
                assert(list[list.len() - 1] == d[i].piece);
            }
        }
    }
}

proof fn all_drafts_hold(sections: Seq<Section>, i: int, k: int)
    requires
        0 <= i < sections.len(),
        0 <= k < section_drafts(sections[i]).len(),
    ensures
        exists|j: int|
            0 <= j < all_drafts(sections).len() && #[trigger] all_drafts(sections)[j]
                == section_drafts(sections[i])[k],
    decreases sections.len(),
{
    let rest = sections.drop_last();
    let all = all_drafts(sections);
    if i == sections.len() - 1 {
        assert(all[all_drafts(rest).len() + k] == section_drafts(sections[i])[k]);
    } else {
        assert(rest[i] == sections[i]);
        all_drafts_hold(rest, i, k);
        let j = choose|j: int|
            0 <= j < all_drafts(rest).len() && #[trigger] all_drafts(rest)[j] == section_drafts(
                rest[i],
            )[k];
        assert(all[j] == all_drafts(rest)[j]);
    }
}

/// A piece is among the chunks, under the given path and with it in its text.
pub open spec fn is_chunked(
    chunks: Seq<ChunkView>,
    title: Seq<char>,
    path: Seq<char>,
    piece: Seq<char>,
) -> bool {
    exists|j: int|
        0 <= j < chunks.len() && (#[trigger] chunks[j]).heading_path == path && chunks[j].text
            == context_header(title, path) + "\n\n"@ + piece
}

/// Every section reaches the index: it has a piece, and each of its pieces is a
/// chunk that repeats the section's path and carries it in its text.
pub proof fn every_section_reaches_a_chunk(title: Seq<char>, source: Seq<char>, i: int)
    requires
        0 <= i < note_sections(source).len(),
    ensures
        section_drafts(note_sections(source)[i]).len() > 0,
        forall|k: int|
            0 <= k < section_drafts(note_sections(source)[i]).len() ==> is_chunked(
                note_chunks(title, source),
                title,
                note_sections(source)[i].path,
                (#[trigger] section_drafts(note_sections(source)[i])[k]).piece,
            ),
{
    let ls = lines(source);
    let sections = note_sections(source);
    let s = sections[i];
    sections_say(ls.skip(body_start(ls)));
    trimmed_is(s.body);
    assert(!blank(trimmed(s.body))) by {
        assert(!white_space(trimmed(s.body)[0]));
    }
    said_or_blank(trimmed(s.body));
    the_pieces_say_last_what_the_text_says_last(trimmed(s.body));
    drafts_say(s.path, body_pieces(trimmed(s.body)));
    let chunks = note_chunks(title, source);
    assert forall|k: int| 0 <= k < section_drafts(s).len() implies is_chunked(
        chunks,
        title,
        s.path,
        (#[trigger] section_drafts(s)[k]).piece,
    ) by {
        all_drafts_hold(sections, i, k);
        let drafts = all_drafts(sections);
        let j = choose|j: int|
            0 <= j < drafts.len() && #[trigger] drafts[j] == section_drafts(s)[k];
        assert(chunks[j] == chunk_of(title, j, drafts[j]));
        assert(section_drafts(s)[k].path == s.path);
    }
}

proof fn all_drafts_fit(sections: Seq<Section>)
    ensures
        forall|k: int|
            0 <= k < all_drafts(sections).len() ==> (#[trigger] all_drafts(sections)[k]).piece.len()
                <= MAX_CHARS && !blank(all_drafts(sections)[k].piece),
    decreases sections.len(),
{
    if sections.len() > 0 {
        all_drafts_fit(sections.drop_last());
        let s = sections.last();
        let list = body_pieces(trimmed(s.body));
        drafts_say(s.path, list);
        body_pieces_fit(trimmed(s.body));
        let all = all_drafts(sections);
        let rest = all_drafts(sections.drop_last());
        assert forall|k: int| 0 <= k < all.len() implies (#[trigger] all[k]).piece.len()
            <= MAX_CHARS && !blank(all[k].piece) by {
            if k < rest.len() {
                assert(all[k] == rest[k]);
            } else {
                let d = section_drafts(s)[k - rest.len()];
                assert(all[k] == d);
                assert(list.contains(d.piece));
                let m = choose|m: int| 0 <= m < list.len() && list[m] == d.piece;
                assert(list[m].len() <= MAX_CHARS);
            }
        }
    }
}

/// Every chunk fits and says something: its text is the header of its path and a
/// piece of at most `MAX_CHARS` characters, it is numbered by its position, and its
/// entities are in strictly ascending order.
pub proof fn every_chunk_fits(title: Seq<char>, source: Seq<char>, k: int)
    requires
        0 <= k < note_chunks(title, source).len(),
    ensures
        ({
            let chunk = note_chunks(title, source)[k];
            &&& exists|piece: Seq<char>|
                piece.len() <= MAX_CHARS && !blank(piece) && chunk.text == #[trigger] (
                context_header(title, chunk.heading_path) + "\n\n"@ + piece) && chunk.entities
                    == entities_of(piece)
            &&& k <= i32::MAX ==> chunk.ix == k
            &&& ascending(chunk.entities)
        }),
{
    let drafts = all_drafts(note_sections(source));
    all_drafts_fit(note_sections(source));
    let chunk = note_chunks(title, source)[k];
    let d = drafts[k];
    assert(chunk == chunk_of(title, k, d));
    sorted_distinct_is_sorted(link_targets(d.piece));
    assert(chunk.text == context_header(title, chunk.heading_path) + "\n\n"@ + d.piece);
}

pub(crate) proof fn pieces_join(s: Seq<char>, sep: Seq<char>)
    requires
        sep.len() > 0,
    ensures
        pieces(s, sep).len() > 0,
        joined(pieces(s, sep), sep) == s,
    decreases s.len(),
{
    found_is_first(s, sep, 0);
    match found(s, sep, 0) {
        Some(k) if 0 <= k && k + sep.len() <= s.len() => {
            let head = s.take(k);
            let rest = s.skip(k + sep.len());
            pieces_join(rest, sep);
            joined_front(head, pieces(rest, sep), sep);
            assert(s =~= head + sep + rest) by {
                assert(s.subrange(k, k + sep.len()) == sep);
            }
        },
        _ => {},
    }
}

pub(crate) proof fn joined_front(head: Seq<char>, rest: Seq<Seq<char>>, sep: Seq<char>)
    requires
        rest.len() > 0,
    ensures
        joined(seq![head] + rest, sep) == head + sep + joined(rest, sep),
    decreases rest.len(),
{
    let all = seq![head] + rest;
    if rest.len() == 1 {
        assert(all.drop_last() =~= seq![head]);
        assert(joined(all.drop_last(), sep) == head);
        assert(all.last() == rest[0]);
    } else {
        joined_front(head, rest.drop_last(), sep);
        assert(all.drop_last() =~= seq![head] + rest.drop_last());
        assert(joined(all, sep) =~= head + sep + joined(rest, sep));
    }
}

proof fn joined_grows(parts: Seq<Seq<char>>, sep: Seq<char>, k: int)
    requires
        0 <= k <= parts.len(),
    ensures
        joined(parts.take(k), sep).len() <= joined(parts, sep).len(),
    decreases parts.len() - k,
{
    if k < parts.len() {
        joined_grows(parts, sep, k + 1);
        let more = parts.take(k + 1);
        assert(more.drop_last() =~= parts.take(k));
    } else {
        assert(parts.take(k) =~= parts);
    }
}

proof fn short_units(paras: Seq<Seq<char>>)
    requires
        all_fit(paras),
    ensures
        units_of(paras) == paras,
    decreases paras.len(),
{
    if paras.len() > 0 {
        let rest = paras.drop_last();
        assert forall|i: int| 0 <= i < rest.len() implies (#[trigger] rest[i]).len()
            <= MAX_CHARS by {
            assert(rest[i] == paras[i]);
        }
        short_units(rest);
        assert(paras[paras.len() - 1].len() <= MAX_CHARS);
        assert(units_of(paras) =~= paras);
    }
}

proof fn short_packing(paras: Seq<Seq<char>>)
    requires
        paras.len() > 0,
        paras[0].len() > 0,
        joined(paras, seq!['\n', '\n']).len() <= TARGET_CHARS,
    ensures
        packed(paras).done.len() == 0,
        packed(paras).current == joined(paras, seq!['\n', '\n']),
        packed(paras).current.len() > 0,
    decreases paras.len(),
{
    let rest = paras.drop_last();
    let sep = seq!['\n', '\n'];
    if paras.len() == 1 {
        assert(packed(rest) == (Packing { done: seq![], current: seq![] }));
    } else {
        assert(rest[0] == paras[0]);
        short_packing(rest);
    }
}

/// A query that already fits is one unit, unchanged: one of at most `TARGET_CHARS`
/// characters that does not open on an empty paragraph, or a single paragraph that
/// fits a unit.
pub proof fn a_short_query_is_one_unit_unchanged(query: Seq<char>, max: nat)
    requires
        max > 0,
        !blank(query),
        !stands_at(query, seq!['\n', '\n'], 0),
        query.len() <= TARGET_CHARS || (query.len() <= MAX_CHARS && found(
            query,
            seq!['\n', '\n'],
            0,
        ) is None),
    ensures
        query_units(query, max) == seq![query],
{
    let sep = seq!['\n', '\n'];
    let paras = pieces(query, sep);
    pieces_join(query, sep);
    found_is_first(query, sep, 0);
    if found(query, sep, 0) is None {
        assert(paras =~= seq![query]);
        short_units(paras);
        assert(packed(paras.drop_last()) == (Packing { done: seq![], current: seq![] }));
        assert(packed(paras).current == query);
    } else {
        assert forall|i: int| 0 <= i < paras.len() implies (#[trigger] paras[i]).len()
            <= MAX_CHARS by {
            joined_grows(paras, sep, i + 1);
            let t = paras.take(i + 1);
            assert(t.last() == paras[i]);
            assert(t.drop_last().len() == i);
            if i == 0 {
                assert(t =~= seq![paras[0]]);
            }
        }
        short_units(paras);
        assert(paras[0].len() > 0);
        short_packing(paras);
    }
    let p = packed(paras);
    assert(p.done =~= seq![]);
    let list = p.done.push(p.current);
    assert(list =~= seq![query]);
    assert(list.drop_last() =~= seq![]);
    assert(all_cut(list.drop_last()) =~= seq![]);
    assert(all_cut(list) =~= seq![query]);
    assert(body_pieces(query) =~= seq![query]);
}

/// The last text of a list ends in `c`.
spec fn last_ends_in(list: Seq<Seq<char>>, c: char) -> bool {
    list.len() > 0 && list.last().len() > 0 && list.last().last() == c
}

proof fn hard_pieces_end(s: Seq<char>)
    requires
        s.len() > 0,
    ensures
        last_ends_in(hard_pieces(s), s.last()),
    decreases s.len(),
{
    if s.len() > MAX_CHARS {
        let rest = s.skip(MAX_CHARS as int);
        hard_pieces_end(rest);
        assert(hard_pieces(s).last() == hard_pieces(rest).last());
        assert(rest.last() == s.last());
    }
}

proof fn lines_end(s: Seq<char>)
    requires
        s.len() > 0,
        !white_space(s.last()),
    ensures
        last_ends_in(lines(s), s.last()),
    decreases s.len(),
{
    first_bounds(s, '\n');
    let n = first(s, '\n') as int;
    if n < s.len() {
        let rest = s.skip(n + 1);
        assert(n + 1 < s.len()) by {
            if n + 1 == s.len() {
                assert(s[n] == s.last());
            }
        }
        assert(rest.last() == s.last());
        lines_end(rest);
        assert(lines(s).last() == lines(rest).last());
    }
}

proof fn pieces_end(s: Seq<char>)
    requires
        s.len() > 0,
        !white_space(s.last()),
    ensures
        last_ends_in(pieces(s, seq!['\n', '\n']), s.last()),
    decreases s.len(),
{
    let sep = seq!['\n', '\n'];
    found_is_first(s, sep, 0);
    match found(s, sep, 0) {
        Some(k) if 0 <= k && k + sep.len() <= s.len() => {
            let rest = s.skip(k + sep.len());
            assert(k + 2 < s.len()) by {
                if k + 2 == s.len() {
                    assert(s.subrange(k, k + 2)[1] == s[k + 1]);
                    assert(s.last() == '\n');
                }
            }
            assert(rest.last() == s.last());
            pieces_end(rest);
            assert(pieces(s, sep).last() == pieces(rest, sep).last());
        },
        _ => {
            assert(pieces(s, sep) =~= seq![s]);
        },
    }
}

proof fn paragraph_units_end(para: Seq<char>)
    requires
        para.len() > 0,
        !white_space(para.last()),
    ensures
        last_ends_in(paragraph_units(para), para.last()),
{
    if para.len() > MAX_CHARS {
        let ls = lines(para);
        lines_end(para);
        let l = ls.last();
        let g = gathered(ls);
        let before = gathered(ls.drop_last());
        assert(g == gather_line(before, l));
        if l.len() > MAX_CHARS {
            hard_pieces_end(l);
            assert(blank(g.buf));
            assert(g.done.last() == hard_pieces(l).last());
        } else {
            assert(g.buf.last() == l.last());
            assert(!blank(g.buf)) by {
                assert(!white_space(g.buf[g.buf.len() - 1]));
            }
        }
    }
}

/// Splitting keeps the end of a text: the last piece ends where the text ends.
pub proof fn the_last_piece_ends_where_the_text_ends(body: Seq<char>)
    requires
        body.len() > 0,
        !white_space(body.last()),
    ensures
        body_pieces(body).len() > 0,
        body_pieces(body).last().len() > 0,
        body_pieces(body).last().last() == body.last(),
{
    let c = body.last();
    let paras = pieces(body, seq!['\n', '\n']);
    pieces_end(body);
    paragraph_units_end(paras.last());
    let units = body_units(body);
    assert(units.last() == paragraph_units(paras.last()).last());
    let p = packed(units);
    let u = units.last();
    assert(p == pack_unit(packed(units.drop_last()), u));
    assert(p.current.last() == c);
    assert(!blank(p.current)) by {
        assert(!white_space(p.current[p.current.len() - 1]));
    }
    let list = p.done.push(p.current);
    assert(list.last() == p.current);
    hard_pieces_end(p.current);
    assert(all_cut(list).last() == cut(p.current).last());
}

/// A query past the cap loses its middle: its first and its last piece are searched
/// whatever stands between them, and the last one ends on what the query says last,
/// unless white space alone fills it.
pub proof fn a_long_query_keeps_its_head_and_its_tail(query: Seq<char>, max: nat)
    requires
        !blank(query),
        max > 0,
    ensures
        query_units(query, max).len() > 0,
        query_units(query, max).last() == body_pieces(query).last(),
        max > 1 ==> query_units(query, max)[0] == body_pieces(query)[0],
        !blank(query_units(query, max).last()) ==> last_said(query_units(query, max).last())
            == last_said(query),
        !white_space(query.last()) ==> query_units(query, max).last().last() == query.last(),
{
    splitting_never_silences_a_body(query);
    the_pieces_say_last_what_the_text_says_last(query);
    said_or_blank(body_pieces(query).last());
    if !white_space(query.last()) {
        the_last_piece_ends_where_the_text_ends(query);
    }
}

/// A query of white space alone asks nothing.
pub proof fn a_blank_query_has_no_units(query: Seq<char>, max: nat)
    requires
        blank(query),
    ensures
        query_units(query, max).len() == 0,
{
}

} // verus!
