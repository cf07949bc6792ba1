//! Markdown chunking for notes.
//!
//! Sections are cut on heading boundaries because that is where these notes
//! actually change subject. Each chunk carries its heading path in the embedded
//! text, which gives both the vector and the BM25 side something to bite on when
//! a chunk's body is mostly prose that never repeats the term.
use vstd::prelude::*;
use vstd::slice::slice_subrange;
use crate::order::{ascending, insert_sorted, inserted, inserted_keeps_order};
use crate::text::{
    blank, chars_of, copy_of, find, first, first_of, found, is_blank, join, joined,
    lines, pieces, push_all, push_str, push_text, push_texts, same, slices, split_at, split_lines,
    starts_with, string_of, strings, strings_of, stripped, texts, trim, trim_end, trim_matches,
    trim_start, trimmed, trimmed_end, trimmed_start,
};

verus! {

/// Bumped whenever chunking changes. It is folded into each file's content hash,
/// so a chunker change invalidates every entry and the next sweep re-embeds.
pub const CHUNKER_VERSION: u32 = 1;

/// Bodies longer than this get split on paragraph boundaries.
pub const TARGET_CHARS: usize = 1200;

/// No piece of a body is longer than this.
pub const MAX_CHARS: usize = 2000;

/// Carried between splits so a fact spanning the cut is still retrievable.
pub const OVERLAP_CHARS: usize = 200;

/// A text cut every `MAX_CHARS` characters.
pub open spec fn hard_pieces(s: Seq<char>) -> Seq<Seq<char>>
    decreases s.len(),
{
    if s.len() == 0 {
        seq![]
    } else if s.len() <= MAX_CHARS {
        seq![s]
    } else {
        seq![s.take(MAX_CHARS as int)] + hard_pieces(s.skip(MAX_CHARS as int))
    }
}

/// Cuts a text every `MAX_CHARS` characters.
pub fn hard_split(s: &[char]) -> (out: Vec<Vec<char>>)
    ensures
        texts(out@) == hard_pieces(s@),
{
    let mut out: Vec<Vec<char>> = Vec::new();
    let mut i: usize = 0;
    proof {
        assert(s@.skip(0) == s@);
        assert(texts(out@) + hard_pieces(s@) =~= hard_pieces(s@));
    }
    while i < s.len()
        invariant
            i <= s@.len(),
            texts(out@) + hard_pieces(s@.skip(i as int)) == hard_pieces(s@),
        decreases s.len() - i,
    {
        let ghost rest = s@.skip(i as int);
        let ghost before = texts(out@);
        let end: usize = if s.len() - i <= MAX_CHARS {
            s.len()
        } else {
            i + MAX_CHARS
        };
        let piece = slice_subrange(s, i, end);
        push_text(&mut out, copy_of(piece));
        proof {
            assert(s@.skip(end as int) =~= rest.skip(end - i));
            if rest.len() <= MAX_CHARS {
                assert(piece@ =~= rest);
                assert(s@.skip(end as int).len() == 0);
            } else {
                assert(piece@ =~= rest.take(MAX_CHARS as int));
            }
            assert(texts(out@) + hard_pieces(s@.skip(end as int)) =~= before + hard_pieces(rest));
        }
        i = end;
    }
    proof {
        assert(s@.skip(i as int).len() == 0);
        assert(texts(out@) + hard_pieces(s@.skip(i as int)) =~= texts(out@));
    }
    out
}

/// Lines being gathered into units: the units that are done, and the one that
/// is being filled.
#[verifier::ext_equal]
pub struct Gathering {
    pub done: Seq<Seq<char>>,
    pub buf: Seq<char>,
}

/// One more line. A line too long for a unit of its own is cut; one that would
/// fill the unit past the target closes it first.
pub open spec fn gather_line(g: Gathering, line: Seq<char>) -> Gathering {
    if line.len() > MAX_CHARS {
        Gathering {
            done: (if blank(g.buf) {
                g.done
            } else {
                g.done.push(g.buf)
            }) + hard_pieces(line),
            buf: seq![],
        }
    } else if g.buf.len() + line.len() + 1 > TARGET_CHARS {
        Gathering { done: g.done.push(g.buf), buf: line }
    } else if g.buf.len() == 0 {
        Gathering { done: g.done, buf: line }
    } else {
        Gathering { done: g.done, buf: g.buf.push('\n') + line }
    }
}

/// All the lines of a paragraph, gathered in order.
pub open spec fn gathered(ls: Seq<Seq<char>>) -> Gathering
    decreases ls.len(),
{
    if ls.len() == 0 {
        Gathering { done: seq![], buf: seq![] }
    } else {
        gather_line(gathered(ls.drop_last()), ls.last())
    }
}

/// The units of one paragraph: the paragraph itself where it fits, else its
/// lines gathered.
pub open spec fn paragraph_units(para: Seq<char>) -> Seq<Seq<char>> {
    let g = gathered(lines(para));
    if para.len() <= MAX_CHARS {
        seq![para]
    } else if blank(g.buf) {
        g.done
    } else {
        g.done.push(g.buf)
    }
}

/// The units of a list of paragraphs, in order.
pub open spec fn units_of(paras: Seq<Seq<char>>) -> Seq<Seq<char>>
    decreases paras.len(),
{
    if paras.len() == 0 {
        seq![]
    } else {
        units_of(paras.drop_last()) + paragraph_units(paras.last())
    }
}

/// The units of a body, whose paragraphs are divided by blank lines.
pub open spec fn body_units(body: Seq<char>) -> Seq<Seq<char>> {
    units_of(pieces(body, seq!['\n', '\n']))
}

/// Every text of a list fits a piece.
pub open spec fn all_fit(list: Seq<Seq<char>>) -> bool {
    forall|i: int| 0 <= i < list.len() ==> (#[trigger] list[i]).len() <= MAX_CHARS
}

/// What a hard split makes fits.
pub proof fn hard_pieces_fit(s: Seq<char>)
    ensures
        all_fit(hard_pieces(s)),
    decreases s.len(),
{
    if s.len() > MAX_CHARS {
        hard_pieces_fit(s.skip(MAX_CHARS as int));
    }
}

proof fn gathered_fit(ls: Seq<Seq<char>>)
    ensures
        all_fit(gathered(ls).done),
        gathered(ls).buf.len() <= MAX_CHARS,
    decreases ls.len(),
{
    if ls.len() > 0 {
        gathered_fit(ls.drop_last());
        hard_pieces_fit(ls.last());
    }
}

/// Every unit fits.
pub proof fn units_fit(paras: Seq<Seq<char>>)
    ensures
        all_fit(units_of(paras)),
    decreases paras.len(),
{
    if paras.len() > 0 {
        units_fit(paras.drop_last());
        gathered_fit(lines(paras.last()));
    }
}

/// Gathers the lines of a paragraph that does not fit as it is.
fn gather(para: &[char]) -> (out: Vec<Vec<char>>)
    requires
        para@.len() > MAX_CHARS,
    ensures
        texts(out@) == paragraph_units(para@),
{
    let ls = split_lines(para);
    let mut out: Vec<Vec<char>> = Vec::new();
    let mut buf: Vec<char> = Vec::new();
    let mut i: usize = 0;
    proof {
        assert(texts(out@) =~= seq![]);
    }
    while i < ls.len()
        invariant
            i <= ls@.len(),
            slices(ls@) == lines(para@),
            texts(out@) == gathered(lines(para@).take(i as int)).done,
            buf@ == gathered(lines(para@).take(i as int)).buf,
        decreases ls.len() - i,
    {
        let line = ls[i];
        proof {
            gathered_fit(lines(para@).take(i as int));
            assert(lines(para@)[i as int] == line@);
            assert(lines(para@).take(i + 1).drop_last() =~= lines(para@).take(i as int));
        }
        if line.len() > MAX_CHARS {
            if !is_blank(buf.as_slice()) {
                push_text(&mut out, buf);
            }
            buf = Vec::new();
            push_texts(&mut out, hard_split(line));
        } else {
            if buf.len() + line.len() + 1 > TARGET_CHARS {
                push_text(&mut out, buf);
                buf = Vec::new();
            }
            if buf.len() > 0 {
                buf.push('\n');
            }
            push_all(&mut buf, line);
        }
        i += 1;
        proof {
            let g = gather_line(gathered(lines(para@).take(i - 1)), line@);
            assert(buf@ =~= g.buf);
        }
    }
    proof {
        assert(lines(para@).take(i as int) =~= lines(para@));
    }
    if !is_blank(buf.as_slice()) {
        push_text(&mut out, buf);
    }
    out
}

/// Breaks a section into units that each fit `MAX_CHARS`.
///
/// Splitting on blank lines alone is not enough: a markdown table or a long list
/// has no blank lines at all, so it arrives as one paragraph. The fallback is to
/// lines, then to a hard character split.
pub fn units(body: &[char]) -> (out: Vec<Vec<char>>)
    ensures
        texts(out@) == body_units(body@),
        all_fit(texts(out@)),
{
    let sep: [char; 2] = ['\n', '\n'];
    let paras = split_at(body, sep.as_slice());
    let ghost all = pieces(body@, seq!['\n', '\n']);
    proof {
        assert(sep@ =~= seq!['\n', '\n']);
    }
    let mut out: Vec<Vec<char>> = Vec::new();
    let mut i: usize = 0;
    proof {
        assert(texts(out@) =~= seq![]);
    }
    while i < paras.len()
        invariant
            i <= paras@.len(),
            slices(paras@) == all,
            texts(out@) == units_of(all.take(i as int)),
        decreases paras.len() - i,
    {
        let para = paras[i];
        proof {
            assert(all[i as int] == para@);
            assert(all.take(i + 1).drop_last() =~= all.take(i as int));
        }
        let ghost before = texts(out@);
        if para.len() <= MAX_CHARS {
            push_text(&mut out, copy_of(para));
        } else {
            push_texts(&mut out, gather(para));
        }
        i += 1;
        proof {
            assert(texts(out@) =~= before + paragraph_units(para@));
        }
    }
    proof {
        assert(all.take(i as int) =~= all);
        units_fit(all);
    }
    out
}

/// Units being packed into pieces: the pieces that are done, and the one that is
/// being filled.
#[verifier::ext_equal]
pub struct Packing {
    pub done: Seq<Seq<char>>,
    pub current: Seq<char>,
}

/// The last `n` characters, or all of them.
pub open spec fn tail(s: Seq<char>, n: nat) -> Seq<char> {
    if s.len() <= n {
        s
    } else {
        s.skip(s.len() - n)
    }
}

/// One more unit. One that would fill the piece past the target closes it, and
/// the next piece opens with the overlap.
pub open spec fn pack_unit(p: Packing, unit: Seq<char>) -> Packing {
    let over = p.current.len() > 0 && p.current.len() + unit.len() > TARGET_CHARS;
    let head = if over {
        tail(p.current, OVERLAP_CHARS as nat)
    } else {
        p.current
    };
    Packing {
        done: if over {
            p.done.push(p.current)
        } else {
            p.done
        },
        current: if head.len() == 0 {
            unit
        } else {
            head + seq!['\n', '\n'] + unit
        },
    }
}

/// All the units, packed in order.
pub open spec fn packed(units: Seq<Seq<char>>) -> Packing
    decreases units.len(),
{
    if units.len() == 0 {
        Packing { done: seq![], current: seq![] }
    } else {
        pack_unit(packed(units.drop_last()), units.last())
    }
}

/// A piece as it is where it fits, else cut.
pub open spec fn cut(piece: Seq<char>) -> Seq<Seq<char>> {
    if piece.len() <= MAX_CHARS {
        seq![piece]
    } else {
        hard_pieces(piece)
    }
}

/// A list of pieces, each cut to fit.
pub open spec fn all_cut(list: Seq<Seq<char>>) -> Seq<Seq<char>>
    decreases list.len(),
{
    if list.len() == 0 {
        seq![]
    } else {
        all_cut(list.drop_last()) + cut(list.last())
    }
}

/// The pieces of a body.
pub open spec fn body_pieces(body: Seq<char>) -> Seq<Seq<char>> {
    let p = packed(body_units(body));
    all_cut(
        if blank(p.current) {
            p.done
        } else {
            p.done.push(p.current)
        },
    )
}

proof fn packed_bound(units: Seq<Seq<char>>)
    requires
        all_fit(units),
    ensures
        packed(units).current.len() <= MAX_CHARS + OVERLAP_CHARS + 2,
    decreases units.len(),
{
    if units.len() > 0 {
        packed_bound(units.drop_last());
        assert(units.last().len() <= MAX_CHARS);
    }
}

proof fn all_cut_fit(list: Seq<Seq<char>>)
    ensures
        all_fit(all_cut(list)),
    decreases list.len(),
{
    if list.len() > 0 {
        all_cut_fit(list.drop_last());
        hard_pieces_fit(list.last());
    }
}

/// No piece of a body is longer than `MAX_CHARS`, whatever the body.
pub proof fn body_pieces_fit(body: Seq<char>)
    ensures
        all_fit(body_pieces(body)),
{
    let p = packed(body_units(body));
    all_cut_fit(p.done);
    all_cut_fit(p.done.push(p.current));
}

/// The last `n` characters of a text, or all of them.
pub fn tail_chars(s: &[char], n: usize) -> (out: Vec<char>)
    ensures
        out@ == tail(s@, n as nat),
{
    let from: usize = if s.len() <= n {
        0
    } else {
        s.len() - n
    };
    let out = copy_of(slice_subrange(s, from, s.len()));
    proof {
        assert(out@ =~= tail(s@, n as nat));
    }
    out
}

/// Packs units into pieces of roughly `TARGET_CHARS` with a little overlap, none
/// longer than `MAX_CHARS`: overlap and packing can both overshoot.
pub fn split_body(body: &[char]) -> (out: Vec<Vec<char>>)
    ensures
        texts(out@) == body_pieces(body@),
        all_fit(texts(out@)),
{
    let units = units(body);
    let ghost all = body_units(body@);
    let mut done: Vec<Vec<char>> = Vec::new();
    let mut current: Vec<char> = Vec::new();
    let mut i: usize = 0;
    proof {
        assert(texts(done@) =~= seq![]);
    }
    while i < units.len()
        invariant
            i <= units@.len(),
            texts(units@) == all,
            all_fit(all),
            texts(done@) == packed(all.take(i as int)).done,
            current@ == packed(all.take(i as int)).current,
        decreases units.len() - i,
    {
        let unit = units[i].as_slice();
        let ghost p = packed(all.take(i as int));
        proof {
            assert(all[i as int] == unit@);
            assert(unit@.len() <= MAX_CHARS);
            assert forall|j: int| 0 <= j < all.take(i as int).len() implies (#[trigger] all.take(
                i as int,
            )[j]).len() <= MAX_CHARS by {
                assert(all.take(i as int)[j] == all[j]);
            }
            packed_bound(all.take(i as int));
            assert(all.take(i + 1).drop_last() =~= all.take(i as int));
        }
        if current.len() > 0 && current.len() + unit.len() > TARGET_CHARS {
            let tail = tail_chars(current.as_slice(), OVERLAP_CHARS);
            push_text(&mut done, current);
            current = tail;
        }
        if current.len() > 0 {
            current.push('\n');
            current.push('\n');
        }
        push_all(&mut current, unit);
        i += 1;
        proof {
            assert(current@ =~= pack_unit(p, unit@).current);
        }
    }
    proof {
        assert(all.take(i as int) =~= all);
    }
    if !is_blank(current.as_slice()) {
        push_text(&mut done, current);
    }
    let ghost list = texts(done@);
    let mut out: Vec<Vec<char>> = Vec::new();
    let mut k: usize = 0;
    proof {
        assert(texts(out@) =~= seq![]);
    }
    while k < done.len()
        invariant
            k <= done@.len(),
            texts(done@) == list,
            texts(out@) == all_cut(list.take(k as int)),
        decreases done.len() - k,
    {
        let piece = done[k].as_slice();
        let ghost before = texts(out@);
        proof {
            assert(list[k as int] == piece@);
            assert(list.take(k + 1).drop_last() =~= list.take(k as int));
        }
        if piece.len() <= MAX_CHARS {
            push_text(&mut out, copy_of(piece));
        } else {
            push_texts(&mut out, hard_split(piece));
        }
        k += 1;
        proof {
            assert(texts(out@) =~= before + cut(piece@));
        }
    }
    proof {
        assert(list.take(k as int) =~= list);
        body_pieces_fit(body@);
    }
    out
}

/// The units of a query: the pieces of a body, of which a long query keeps the
/// first and the last ones, and `max` in all.
pub open spec fn query_units(query: Seq<char>, max: nat) -> Seq<Seq<char>> {
    let all = body_pieces(query);
    if blank(query) {
        seq![]
    } else if all.len() <= max {
        all
    } else {
        all.take(max as int / 2) + all.skip(all.len() - (max - max / 2))
    }
}

/// Splits a query into units that each fit the embedding window.
///
/// Deliberately the same splitter documents get: a query is the other half of
/// that comparison. A query that already fits comes back as one unit, which is
/// the common case by a wide margin. Whitespace-only input yields no units.
///
/// Past `max_units` the middle of the query is dropped: the head says what a
/// paste is, and the question asked about it stands at the tail.
pub fn split_query(query: &str, max_units: usize) -> (out: Vec<String>)
    ensures
        strings(out@) == query_units(query@, max_units as nat),
        out@.len() <= max_units,
        all_fit(strings(out@)),
{
    let query = chars_of(query);
    if is_blank(query.as_slice()) {
        let out: Vec<String> = Vec::new();
        proof {
            assert(strings(out@) =~= seq![]);
        }
        return out;
    }
    let all = split_body(query.as_slice());
    let ghost list = texts(all@);
    let n: usize = all.len();
    let strs = strings_of(&all);
    if n <= max_units {
        return strs;
    }
    let head: usize = max_units / 2;
    let mut out = strs;
    let mut rest = out.split_off(n - (max_units - head));
    out.truncate(head);
    proof {
        assert(rest@ =~= strs@.skip(n - (max_units - head)));
        assert(out@ =~= strs@.take(head as int));
    }
    out.append(&mut rest);
    proof {
        let kept = list.take(max_units as int / 2) + list.skip(
            n - (max_units - max_units as int / 2),
        );
        assert(strings(out@) =~= kept);
        assert forall|i: int| 0 <= i < kept.len() implies (#[trigger] kept[i]).len()
            <= MAX_CHARS by {
            if i < head {
                assert(kept[i] == list[i]);
            } else {
                assert(kept[i] == list[n - (max_units - head) + i - head]);
            }
        }
    }
    out
}

/// What a link names: the text before an alias or a heading, trimmed.
pub open spec fn link_target(inner: Seq<char>) -> Seq<char> {
    let bar = first(inner, '|');
    let hash = first(inner, '#');
    trimmed(
        inner.take(
            if bar <= hash {
                bar as int
            } else {
                hash as int
            },
        ),
    )
}

/// The targets of the links of a text, in the order in which they stand.
pub open spec fn link_targets(s: Seq<char>) -> Seq<Seq<char>>
    decreases s.len(),
{
    if s.len() < 2 {
        seq![]
    } else if s[0] == '[' && s[1] == '[' {
        match found(s, seq![']', ']'], 2) {
            Some(close) if 2 <= close && close + 2 <= s.len() => seq![
                link_target(s.subrange(2, close)),
            ] + link_targets(s.skip(close + 2)),
            _ => link_targets(s.skip(1)),
        }
    } else {
        link_targets(s.skip(1))
    }
}

/// The nonempty texts of a list, each once, in ascending order.
pub open spec fn sorted_distinct(list: Seq<Seq<char>>) -> Seq<Seq<char>>
    decreases list.len(),
{
    if list.len() == 0 {
        seq![]
    } else if list.last().len() == 0 {
        sorted_distinct(list.drop_last())
    } else {
        inserted(sorted_distinct(list.drop_last()), list.last())
    }
}

/// The entities of a text: the targets of its links, each once, in ascending
/// order.
pub open spec fn entities_of(s: Seq<char>) -> Seq<Seq<char>> {
    sorted_distinct(link_targets(s))
}

/// The sorted list holds the nonempty texts of the list it was made of and no
/// others, in strictly ascending order.
pub proof fn sorted_distinct_is_sorted(list: Seq<Seq<char>>)
    ensures
        ascending(sorted_distinct(list)),
        forall|x: Seq<char>| #[trigger]
            sorted_distinct(list).contains(x) <==> x.len() > 0 && list.contains(x),
    decreases list.len(),
{
    if list.len() > 0 {
        let rest = list.drop_last();
        sorted_distinct_is_sorted(rest);
        inserted_keeps_order(sorted_distinct(rest), list.last());
        assert forall|x: Seq<char>| #[trigger]
            sorted_distinct(list).contains(x) <==> x.len() > 0 && list.contains(x) by {
            assert(list.contains(x) <==> rest.contains(x) || x == list.last()) by {
                if rest.contains(x) {
                    let k = choose|k: int| 0 <= k < rest.len() && rest[k] == x;
                    assert(list[k] == x);
                }
                if list.contains(x) {
                    let k = choose|k: int| 0 <= k < list.len() && list[k] == x;
                    if k < list.len() - 1 {
                        assert(rest[k] == x);
                    }
                }
                assert(list[list.len() - 1] == list.last());
            }
            assert(sorted_distinct(rest).contains(x) <==> x.len() > 0 && rest.contains(x));
        }
    }
}

/// Pulls `[[Target]]`, `[[Target|alias]]` and `[[Target#heading]]` down to the
/// target. These become a label-list column, giving exact entity lookup that
/// neither BM25 nor embeddings do reliably for short proper nouns.
pub fn extract_wikilinks(s: &[char]) -> (out: Vec<Vec<char>>)
    ensures
        texts(out@) == entities_of(s@),
{
    let close_mark: [char; 2] = [']', ']'];
    proof {
        assert(close_mark@ =~= seq![']', ']']);
    }
    let mut out: Vec<Vec<char>> = Vec::new();
    let mut i: usize = 0;
    let ghost mut seen: Seq<Seq<char>> = seq![];
    proof {
        assert(texts(out@) =~= sorted_distinct(seen));
        assert(s@.skip(0) == s@);
        assert(seen + link_targets(s@) =~= link_targets(s@));
    }
    while i < s.len() && s.len() - i >= 2
        invariant
            i <= s@.len(),
            close_mark@ == seq![']', ']'],
            texts(out@) == sorted_distinct(seen),
            seen + link_targets(s@.skip(i as int)) == link_targets(s@),
        decreases s.len() - i,
    {
        let rest = slice_subrange(s, i, s.len());
        let end: usize = rest.len();
        proof {
            assert(rest@ =~= s@.skip(i as int));
        }
        if rest[0] == '[' && rest[1] == '[' {
            if let Some(close) = find(rest, close_mark.as_slice(), 2) {
                let inner = slice_subrange(rest, 2, close);
                let bar: usize = first_of(inner, '|');
                let hash: usize = first_of(inner, '#');
                let cut: usize = if bar <= hash {
                    bar
                } else {
                    hash
                };
                let target = trim(slice_subrange(inner, 0, cut));
                proof {
                    assert(inner@.subrange(0, cut as int) =~= inner@.take(cut as int));
                    assert(target@ == link_target(inner@));
                    assert(seen.push(target@).drop_last() =~= seen);
                    assert(seen.push(target@) + link_targets(rest@.skip(close + 2)) =~= seen
                        + link_targets(rest@));
                    assert(rest@.skip(close + 2) =~= s@.skip(i + close + 2));
                    seen = seen.push(target@);
                }
                if target.len() > 0 {
                    insert_sorted(&mut out, copy_of(target));
                }
                i = i + (close + 2);
                continue ;
            }
        }
        proof {
            assert(rest@.skip(1) =~= s@.skip(i + 1));
        }
        i += 1;
    }
    proof {
        assert(seen + link_targets(s@.skip(i as int)) =~= seen);
    }
    out
}

/// The three YAML keys the indexer reads. Absent keys come back empty rather
/// than missing, so a note without frontmatter parses like one with blank
/// values.
#[derive(Debug, Clone)]
pub struct Frontmatter {
    pub note_type: String,
    pub captured: String,
    pub tags: Vec<String>,
}

/// The texts of a [`Frontmatter`].
#[verifier::ext_equal]
pub struct FrontmatterView {
    pub note_type: Seq<char>,
    pub captured: Seq<char>,
    pub tags: Seq<Seq<char>>,
}

impl View for Frontmatter {
    type V = FrontmatterView;

    open spec fn view(&self) -> FrontmatterView {
        FrontmatterView {
            note_type: self.note_type@,
            captured: self.captured@,
            tags: strings(self.tags@),
        }
    }
}

/// Frontmatter with every key absent.
pub open spec fn no_frontmatter() -> FrontmatterView {
    FrontmatterView { note_type: seq![], captured: seq![], tags: seq![] }
}

impl Default for Frontmatter {
    /// Every key absent.
    fn default() -> (out: Self)
        ensures
            out@ == no_frontmatter(),
    {
        let out = Frontmatter {
            note_type: String::new(),
            captured: String::new(),
            tags: Vec::new(),
        };
        proof {
            assert(out@ =~= no_frontmatter());
        }
        out
    }
}

/// The line that opens and closes the frontmatter.
pub open spec fn is_rule(line: Seq<char>) -> bool {
    trimmed_end(line) == "---"@
}

/// The first rule at or after line `i`.
pub open spec fn next_rule(ls: Seq<Seq<char>>, i: int) -> Option<int>
    decreases ls.len() - i,
{
    if i < 0 || i >= ls.len() {
        None
    } else if is_rule(ls[i]) {
        Some(i)
    } else {
        next_rule(ls, i + 1)
    }
}

/// The line that closes the frontmatter, where the note has any.
pub open spec fn frontmatter_end(ls: Seq<Seq<char>>) -> Option<int> {
    if ls.len() > 0 && is_rule(ls[0]) {
        next_rule(ls, 1)
    } else {
        None
    }
}

/// Frontmatter while its lines are read: what was read, and the key that list
/// items belong to.
#[verifier::ext_equal]
pub struct FrontmatterReading {
    pub front: FrontmatterView,
    pub key: Option<Seq<char>>,
}

/// The nonempty items of an inline list, unquoted.
pub open spec fn inline_tags(items: Seq<Seq<char>>) -> Seq<Seq<char>>
    decreases items.len(),
{
    if items.len() == 0 {
        seq![]
    } else {
        let tag = stripped(trimmed(items.last()), '"');
        let rest = inline_tags(items.drop_last());
        if tag.len() == 0 {
            rest
        } else {
            rest.push(tag)
        }
    }
}

/// Frontmatter with one key set.
pub open spec fn with_key(
    front: FrontmatterView,
    key: Seq<char>,
    value: Seq<char>,
) -> FrontmatterView {
    if key == "type"@ {
        FrontmatterView { note_type: value, ..front }
    } else if key == "captured"@ {
        FrontmatterView { captured: value, ..front }
    } else if key == "tags"@ && value.len() >= 2 && value[0] == '[' && value.last() == ']' {
        FrontmatterView {
            tags: inline_tags(pieces(value.subrange(1, value.len() - 1), seq![','])),
            ..front
        }
    } else {
        front
    }
}

/// One more line of frontmatter: a list item, a key with its value, or neither.
pub open spec fn read_front_line(r: FrontmatterReading, raw: Seq<char>) -> FrontmatterReading {
    let line = trimmed_end(raw);
    let item = trimmed_start(line);
    let colon = first(line, ':') as int;
    if "- "@.is_prefix_of(item) {
        if r.key == Some("tags"@) {
            FrontmatterReading {
                front: FrontmatterView {
                    tags: r.front.tags.push(stripped(trimmed(item.skip(2)), '"')),
                    ..r.front
                },
                key: r.key,
            }
        } else {
            r
        }
    } else if colon < line.len() {
        let key = trimmed(line.take(colon));
        let value = stripped(stripped(trimmed(line.skip(colon + 1)), '"'), '\'');
        FrontmatterReading { front: with_key(r.front, key, value), key: Some(key) }
    } else {
        r
    }
}

/// The lines of the frontmatter, read in order.
pub open spec fn read_front(ls: Seq<Seq<char>>) -> FrontmatterReading
    decreases ls.len(),
{
    if ls.len() == 0 {
        FrontmatterReading { front: no_frontmatter(), key: None }
    } else {
        read_front_line(read_front(ls.drop_last()), ls.last())
    }
}

/// The frontmatter of a note.
pub open spec fn frontmatter_of(ls: Seq<Seq<char>>) -> FrontmatterView {
    match frontmatter_end(ls) {
        Some(end) => read_front(ls.subrange(1, end)).front,
        None => no_frontmatter(),
    }
}

/// The line that the note's body starts at.
pub open spec fn body_start(ls: Seq<Seq<char>>) -> int {
    match frontmatter_end(ls) {
        Some(end) => end + 1,
        None => 0,
    }
}

/// Whether a text is the given literal.
fn is_str(s: &[char], literal: &str) -> (r: bool)
    ensures
        r == (s@ == literal@),
{
    let literal = chars_of(literal);
    same(s, literal.as_slice())
}

/// Splits an inline list into its tags.
fn split_tags(inner: &[char]) -> (out: Vec<String>)
    ensures
        strings(out@) == inline_tags(pieces(inner@, seq![','])),
{
    let sep: [char; 1] = [','];
    let items = split_at(inner, sep.as_slice());
    let ghost all = pieces(inner@, seq![',']);
    proof {
        assert(sep@ =~= seq![',']);
    }
    let mut out: Vec<String> = Vec::new();
    let mut i: usize = 0;
    proof {
        assert(strings(out@) =~= seq![]);
    }
    while i < items.len()
        invariant
            i <= items@.len(),
            slices(items@) == all,
            strings(out@) == inline_tags(all.take(i as int)),
        decreases items.len() - i,
    {
        let tag = trim_matches(trim(items[i]), '"');
        let ghost before = out@;
        proof {
            assert(all[i as int] == items@[i as int]@);
            assert(all.take(i + 1).drop_last() =~= all.take(i as int));
        }
        if tag.len() > 0 {
            out.push(string_of(tag));
            proof {
                assert(strings(out@) =~= strings(before).push(tag@));
            }
        }
        i += 1;
    }
    proof {
        assert(all.take(i as int) =~= all);
    }
    out
}

/// Reads one line of frontmatter.
fn read_line(front: &mut Frontmatter, key: Option<Vec<char>>, raw: &[char]) -> (next: Option<
    Vec<char>,
>)
    ensures
        ({
            let r = FrontmatterReading {
                front: old(front)@,
                key: match key {
                    Some(k) => Some(k@),
                    None => None,
                },
            };
            let out = read_front_line(r, raw@);
            &&& final(front)@ == out.front
            &&& out.key == match next {
                Some(k) => Some(k@),
                None => None,
            }
        }),
{
    let line = trim_end(raw);
    let item = trim_start(line);
    if starts_with(item, "- ") {
        proof {
            reveal_strlit("- ");
        }
        let listed = match &key {
            Some(k) => is_str(k.as_slice(), "tags"),
            None => false,
        };
        if listed {
            let rest = slice_subrange(item, 2, item.len());
            let tag = trim_matches(trim(rest), '"');
            let ghost before = front.tags@;
            front.tags.push(string_of(tag));
            proof {
                assert(rest@ =~= item@.skip(2));
                assert(strings(front.tags@) =~= strings(before).push(tag@));
            }
        }
        return key;
    }
    let colon: usize = first_of(line, ':');
    if colon >= line.len() {
        return key;
    }
    let name = trim(slice_subrange(line, 0, colon));
    let rest = slice_subrange(line, colon + 1, line.len());
    let value = trim_matches(trim_matches(trim(rest), '"'), '\'');
    proof {
        assert(line@.subrange(0, colon as int) =~= line@.take(colon as int));
        assert(rest@ =~= line@.skip(colon + 1));
    }
    if is_str(name, "type") {
        front.note_type = string_of(value);
    } else if is_str(name, "captured") {
        front.captured = string_of(value);
    } else if is_str(name, "tags") {
        let n: usize = value.len();
        if n >= 2 && value[0] == '[' && value[n - 1] == ']' {
            front.tags = split_tags(slice_subrange(value, 1, n - 1));
        }
    }
    Some(copy_of(name))
}

/// Minimal YAML: enough for `type`, `captured` and `tags`, in either inline
/// (`[a, b]`) or block (`- a`) form. Also gives the line that the body starts at.
pub fn parse_frontmatter(ls: &Vec<&[char]>) -> (out: (Frontmatter, usize))
    ensures
        out.0@ == frontmatter_of(slices(ls@)),
        out.1 == body_start(slices(ls@)),
        out.1 <= ls@.len(),
{
    let ghost all = slices(ls@);
    let mut front = Frontmatter::default();
    if ls.len() == 0 {
        return (front, 0);
    }
    proof {
        assert(all[0] == ls@[0]@);
    }
    if !is_str(trim_end(ls[0]), "---") {
        return (front, 0);
    }
    let mut end: usize = 1;
    while end < ls.len() && !is_str(trim_end(ls[end]), "---")
        invariant
            1 <= end <= ls@.len(),
            all == slices(ls@),
            next_rule(all, 1) == next_rule(all, end as int),
        decreases ls.len() - end,
    {
        proof {
            assert(all[end as int] == ls@[end as int]@);
        }
        end += 1;
    }
    if end >= ls.len() {
        return (front, 0);
    }
    proof {
        assert(all[end as int] == ls@[end as int]@);
        assert(next_rule(all, 1) == Some(end as int));
    }
    let ghost inner = all.subrange(1, end as int);
    let mut key: Option<Vec<char>> = None;
    let mut i: usize = 1;
    proof {
        assert(inner.take(0) =~= seq![]);
    }
    while i < end
        invariant
            1 <= i <= end < ls@.len(),
            all == slices(ls@),
            inner == all.subrange(1, end as int),
            front@ == read_front(inner.take(i - 1)).front,
            read_front(inner.take(i - 1)).key == match key {
                Some(k) => Some(k@),
                None => None,
            },
        decreases end - i,
    {
        proof {
            assert(inner[i - 1] == ls@[i as int]@);
            assert(inner.take(i as int).drop_last() =~= inner.take(i - 1));
        }
        key = read_line(&mut front, key, ls[i]);
        i += 1;
    }
    proof {
        assert(inner.take(i - 1) =~= inner);
    }
    (front, end + 1)
}

/// A part of a note between two headings: the path of headings above it, and
/// its text.
#[verifier::ext_equal]
pub struct Section {
    pub path: Seq<char>,
    pub body: Seq<char>,
}

/// A note being cut into sections: where in the heading tree the next line
/// stands, what was cut, the lines since the last heading, and whether a code
/// fence is open. The place in the heading tree is the level and the text of each
/// heading above the line, the outermost first.
#[verifier::ext_equal]
pub struct Sectioning {
    pub stack: Seq<(int, Seq<char>)>,
    pub sections: Seq<Section>,
    pub body: Seq<char>,
    pub in_fence: bool,
}

/// A line that opens or closes a code fence.
pub open spec fn is_fence(line: Seq<char>) -> bool {
    let t = trimmed_start(line);
    "```"@.is_prefix_of(t) || "~~~"@.is_prefix_of(t)
}

/// How many `#`s a text begins with.
pub open spec fn hashes(t: Seq<char>) -> nat
    decreases t.len(),
{
    if t.len() > 0 && t[0] == '#' {
        1 + hashes(t.skip(1))
    } else {
        0
    }
}

/// The level of a heading: one to six `#`s and a blank.
pub open spec fn heading_level(line: Seq<char>) -> Option<int> {
    let t = trimmed_start(line);
    let n = hashes(t) as int;
    if 1 <= n <= 6 && n < t.len() && t[n] == ' ' {
        Some(n)
    } else {
        None
    }
}

/// The text of a heading of the given level.
pub open spec fn heading_text(line: Seq<char>, level: int) -> Seq<char> {
    trimmed(trimmed_start(line).skip(level + 1))
}

/// The texts of a list of headings.
pub open spec fn heading_texts(stack: Seq<(int, Seq<char>)>) -> Seq<Seq<char>> {
    stack.map_values(|h: (int, Seq<char>)| h.1)
}

/// The headings above a line, joined into its path.
pub open spec fn path_of(stack: Seq<(int, Seq<char>)>) -> Seq<char> {
    joined(heading_texts(stack), " > "@)
}

/// The headings that a heading of the given level stands below: those above the line
/// without its siblings and all that is below them.
pub open spec fn parents_of(stack: Seq<(int, Seq<char>)>, level: int) -> Seq<(int, Seq<char>)>
    decreases stack.len(),
{
    if stack.len() > 0 && stack.last().0 >= level {
        parents_of(stack.drop_last(), level)
    } else {
        stack
    }
}

/// The sections with the one that is being read, where it holds anything.
pub open spec fn closed_sections(s: Sectioning) -> Seq<Section> {
    if blank(s.body) {
        s.sections
    } else {
        s.sections.push(Section { path: path_of(s.stack), body: s.body })
    }
}

/// One more line. A `#` inside a fence is code, not a heading.
pub open spec fn section_line(s: Sectioning, line: Seq<char>) -> Sectioning {
    let in_fence = if is_fence(line) {
        !s.in_fence
    } else {
        s.in_fence
    };
    match heading_level(line) {
        Some(level) if !in_fence => Sectioning {
            stack: parents_of(s.stack, level).push((level, heading_text(line, level))),
            sections: closed_sections(s),
            body: seq![],
            in_fence,
        },
        _ => Sectioning { body: s.body + line.push('\n'), in_fence, ..s },
    }
}

/// The start of a note.
pub open spec fn no_sections() -> Sectioning {
    Sectioning { stack: seq![], sections: seq![], body: seq![], in_fence: false }
}

/// The lines of a body, read in order.
pub open spec fn sectioned(ls: Seq<Seq<char>>) -> Sectioning
    decreases ls.len(),
{
    if ls.len() == 0 {
        no_sections()
    } else {
        section_line(sectioned(ls.drop_last()), ls.last())
    }
}

/// Each heading of a place in the heading tree is of a deeper level than those above it.
pub open spec fn levels_deepen(stack: Seq<(int, Seq<char>)>) -> bool {
    forall|i: int, j: int|
        0 <= i < j < stack.len() ==> (#[trigger] stack[i]).0 < (#[trigger] stack[j]).0
}

/// The headings that a heading stands below are the outermost ones, each of them of a
/// higher rank than it; the next one inwards, if there is one, is not.
pub proof fn parents_rank_higher(stack: Seq<(int, Seq<char>)>, level: int)
    requires
        levels_deepen(stack),
    ensures
        ({
            let kept = parents_of(stack, level);
            &&& kept.is_prefix_of(stack)
            &&& forall|i: int| 0 <= i < kept.len() ==> (#[trigger] kept[i]).0 < level
            &&& kept.len() < stack.len() ==> stack[kept.len() as int].0 >= level
        }),
    decreases stack.len(),
{
    if stack.len() > 0 && stack.last().0 >= level {
        let rest = stack.drop_last();
        assert forall|i: int, j: int| 0 <= i < j < rest.len() implies (#[trigger] rest[i]).0 < (
        #[trigger] rest[j]).0 by {
            assert(stack[i].0 < stack[j].0);
        }
        parents_rank_higher(rest, level);
        let kept = parents_of(stack, level);
        assert(kept =~= stack.subrange(0, kept.len() as int)) by {
            assert(kept =~= rest.subrange(0, kept.len() as int));
        }
    } else {
        assert(stack =~= stack.subrange(0, stack.len() as int));
        if stack.len() > 0 {
            assert forall|i: int| 0 <= i < stack.len() implies (#[trigger] stack[i]).0 < level by {
                if i < stack.len() - 1 {
                    assert(stack[i].0 < stack[stack.len() - 1].0);
                }
            }
        }
    }
}

/// A path is a branch of the heading tree: each heading in it is of a deeper level than
/// the one before, so that no heading ever stands above its sibling.
pub proof fn no_heading_stands_above_its_sibling(ls: Seq<Seq<char>>)
    ensures
        levels_deepen(sectioned(ls).stack),
    decreases ls.len(),
{
    if ls.len() > 0 {
        let before = sectioned(ls.drop_last());
        no_heading_stands_above_its_sibling(ls.drop_last());
        if heading_level(ls.last()) is Some {
            let level = heading_level(ls.last())->Some_0;
            let kept = parents_of(before.stack, level);
            parents_rank_higher(before.stack, level);
            let after = kept.push((level, heading_text(ls.last(), level)));
            assert forall|i: int, j: int| 0 <= i < j < after.len() implies (#[trigger] after[i]).0
                < (#[trigger] after[j]).0 by {
                assert(after[i] == kept[i]);
                if j < kept.len() {
                    assert(before.stack.subrange(0, kept.len() as int)[i] == before.stack[i]);
                    assert(before.stack.subrange(0, kept.len() as int)[j] == before.stack[j]);
                }
            }
        }
    }
}

/// The sections of a note.
pub open spec fn note_sections(source: Seq<char>) -> Seq<Section> {
    let ls = lines(source);
    closed_sections(sectioned(ls.skip(body_start(ls))))
}

/// A piece of a section, with the section's path.
#[verifier::ext_equal]
pub struct Draft {
    pub path: Seq<char>,
    pub piece: Seq<char>,
}

/// The pieces that hold anything.
pub open spec fn drafts_of(path: Seq<char>, list: Seq<Seq<char>>) -> Seq<Draft>
    decreases list.len(),
{
    if list.len() == 0 {
        seq![]
    } else {
        let rest = drafts_of(path, list.drop_last());
        if blank(list.last()) {
            rest
        } else {
            rest.push(Draft { path, piece: list.last() })
        }
    }
}

/// The pieces of one section.
pub open spec fn section_drafts(s: Section) -> Seq<Draft> {
    drafts_of(s.path, body_pieces(trimmed(s.body)))
}

/// The pieces of all the sections, in document order.
pub open spec fn all_drafts(sections: Seq<Section>) -> Seq<Draft>
    decreases sections.len(),
{
    if sections.len() == 0 {
        seq![]
    } else {
        all_drafts(sections.drop_last()) + section_drafts(sections.last())
    }
}

/// One indexed unit: a section, or a slice of one too long to embed whole.
#[derive(Debug, Clone)]
pub struct Chunk {
    /// What actually gets embedded and full-text indexed: context header + body.
    pub text: String,
    /// The `>`-joined headings above this chunk, keyed per section rather than
    /// per chunk, so a section split across several chunks repeats its path on
    /// every one of them.
    pub heading_path: String,
    /// Position within the file, in document order.
    pub ix: i32,
    /// Every `[[wikilink]]` target found in the body.
    pub entities: Vec<String>,
}

/// The texts of a [`Chunk`].
#[verifier::ext_equal]
pub struct ChunkView {
    pub text: Seq<char>,
    pub heading_path: Seq<char>,
    pub ix: i32,
    pub entities: Seq<Seq<char>>,
}

impl View for Chunk {
    type V = ChunkView;

    open spec fn view(&self) -> ChunkView {
        ChunkView {
            text: self.text@,
            heading_path: self.heading_path@,
            ix: self.ix,
            entities: strings(self.entities@),
        }
    }
}

/// The line above a chunk's body: the note's title and the chunk's path.
pub open spec fn context_header(title: Seq<char>, path: Seq<char>) -> Seq<char> {
    if path.len() == 0 {
        title
    } else {
        title + " > "@ + path
    }
}

/// The chunk made of the draft at position `ix`.
pub open spec fn chunk_of(title: Seq<char>, ix: int, d: Draft) -> ChunkView {
    ChunkView {
        text: context_header(title, d.path) + "\n\n"@ + d.piece,
        heading_path: d.path,
        ix: ix as i32,
        entities: entities_of(d.piece),
    }
}

/// The chunks made of all the drafts, numbered in document order.
pub open spec fn chunks_of(title: Seq<char>, drafts: Seq<Draft>) -> Seq<ChunkView> {
    drafts.map(|ix: int, d: Draft| chunk_of(title, ix, d))
}

/// The chunks of a note.
pub open spec fn note_chunks(title: Seq<char>, source: Seq<char>) -> Seq<ChunkView> {
    chunks_of(title, all_drafts(note_sections(source)))
}

/// The texts of a list of chunks.
pub open spec fn chunk_views(chunks: Seq<Chunk>) -> Seq<ChunkView> {
    chunks.map_values(|c: Chunk| c@)
}

/// A whole markdown file, chunked.
#[derive(Debug, Clone)]
pub struct ParsedNote {
    pub title: String,
    pub frontmatter: Frontmatter,
    pub chunks: Vec<Chunk>,
}

/// A section as it is cut: path and text.
struct Cut {
    path: Vec<char>,
    body: Vec<char>,
}

spec fn cuts(v: Seq<Cut>) -> Seq<Section> {
    v.map_values(|c: Cut| Section { path: c.path@, body: c.body@ })
}

fn fence_line(line: &[char]) -> (r: bool)
    ensures
        r == is_fence(line@),
{
    let t = trim_start(line);
    starts_with(t, "```") || starts_with(t, "~~~")
}

proof fn hashes_are(t: Seq<char>, n: int)
    requires
        0 <= n <= t.len(),
        forall|j: int| 0 <= j < n ==> t[j] == '#',
        n == t.len() || t[n] != '#',
    ensures
        hashes(t) == n,
    decreases n,
{
    if n > 0 {
        hashes_are(t.skip(1), n - 1);
    }
}

fn level_of(line: &[char]) -> (r: Option<usize>)
    ensures
        heading_level(line@) == match r {
            Some(n) => Some(n as int),
            None => None,
        },
        r matches Some(n) ==> 1 <= n <= 6 && n < trimmed_start(line@).len(),
{
    let t = trim_start(line);
    let mut n: usize = 0;
    while n < t.len() && t[n] == '#'
        invariant
            n <= t@.len(),
            forall|j: int| 0 <= j < n ==> t@[j] == '#',
        decreases t.len() - n,
    {
        n += 1;
    }
    proof {
        hashes_are(t@, n as int);
    }
    if 1 <= n && n <= 6 && n < t.len() && t[n] == ' ' {
        Some(n)
    } else {
        None
    }
}

/// A heading above the line that is being read.
struct Heading {
    level: usize,
    text: Vec<char>,
}

spec fn headings(stack: Seq<Heading>) -> Seq<(int, Seq<char>)> {
    stack.map_values(|h: Heading| (h.level as int, h.text@))
}

/// Joins the headings above a line into its path.
fn join_headings(stack: &Vec<Heading>) -> (out: Vec<char>)
    ensures
        out@ == path_of(headings(stack@)),
{
    let mut list: Vec<Vec<char>> = Vec::new();
    let mut i: usize = 0;
    while i < stack.len()
        invariant
            i <= stack@.len(),
            list@.len() == i,
            forall|j: int| 0 <= j < i ==> (#[trigger] list@[j])@ == stack@[j].text@,
        decreases stack.len() - i,
    {
        list.push(copy_of(stack[i].text.as_slice()));
        i += 1;
    }
    proof {
        assert(texts(list@) =~= heading_texts(headings(stack@)));
    }
    join(&list, " > ")
}

/// Leaves the headings that a heading of the given level stands below.
fn leave_siblings(stack: &mut Vec<Heading>, level: usize)
    ensures
        headings(final(stack)@) == parents_of(headings(old(stack)@), level as int),
{
    while stack.len() > 0 && stack[stack.len() - 1].level >= level
        invariant
            parents_of(headings(stack@), level as int) == parents_of(
                headings(old(stack)@),
                level as int,
            ),
        decreases stack.len(),
    {
        let ghost before = headings(stack@);
        stack.pop();
        proof {
            assert(headings(stack@) =~= before.drop_last());
        }
    }
}

/// Adds the section that is being read, where it holds anything.
fn close_section(sections: &mut Vec<Cut>, stack: &Vec<Heading>, body: Vec<char>)
    ensures
        cuts(final(sections)@) == if blank(body@) {
            cuts(old(sections)@)
        } else {
            cuts(old(sections)@).push(Section { path: path_of(headings(stack@)), body: body@ })
        },
{
    if !is_blank(body.as_slice()) {
        let path = join_headings(stack);
        let c = Cut { path, body };
        sections.push(c);
        proof {
            assert(cuts(sections@) =~= cuts(old(sections)@).push(
                Section { path: c.path@, body: c.body@ },
            ));
        }
    }
}

/// Cuts the lines of a body into sections.
fn cut_sections(ls: &Vec<&[char]>, start: usize) -> (out: Vec<Cut>)
    requires
        start <= ls@.len(),
    ensures
        cuts(out@) == closed_sections(sectioned(slices(ls@).skip(start as int))),
{
    let ghost all = slices(ls@).skip(start as int);
    let mut stack: Vec<Heading> = Vec::new();
    let mut sections: Vec<Cut> = Vec::new();
    let mut body: Vec<char> = Vec::new();
    let mut in_fence = false;
    let mut i: usize = start;
    proof {
        assert(headings(stack@) =~= seq![]);
        assert(cuts(sections@) =~= seq![]);
        assert(all.take(0) =~= seq![]);
    }
    while i < ls.len()
        invariant
            start <= i <= ls@.len(),
            all == slices(ls@).skip(start as int),
            ({
                let s = sectioned(all.take(i - start));
                &&& headings(stack@) == s.stack
                &&& cuts(sections@) == s.sections
                &&& body@ == s.body
                &&& in_fence == s.in_fence
            }),
        decreases ls.len() - i,
    {
        let line = ls[i];
        let ghost s = sectioned(all.take(i - start));
        proof {
            assert(all[i - start] == line@);
            assert(all.take(i + 1 - start).drop_last() =~= all.take(i - start));
        }
        i += 1;
        if fence_line(line) {
            in_fence = !in_fence;
        }
        if !in_fence {
            if let Some(level) = level_of(line) {
                close_section(&mut sections, &stack, body);
                body = Vec::new();
                let t = trim_start(line);
                let rest = slice_subrange(t, level + 1, t.len());
                let text = copy_of(trim(rest));
                leave_siblings(&mut stack, level);
                let ghost parents = headings(stack@);
                let heading = Heading { level, text };
                let ghost added = (heading.level as int, heading.text@);
                stack.push(heading);
                proof {
                    assert(rest@ =~= t@.skip(level + 1));
                    assert(headings(stack@) =~= parents.push(added));
                }
                continue ;
            }
        }
        push_all(&mut body, line);
        body.push('\n');
        proof {
            assert(body@ =~= s.body + line@.push('\n'));
        }
    }
    proof {
        assert(all.take(i - start) =~= all);
    }
    close_section(&mut sections, &stack, body);
    sections
}

/// Adds the chunk made of a piece of a section.
fn push_chunk(chunks: &mut Vec<Chunk>, title: &[char], path: &[char], piece: &[char])
    ensures
        chunk_views(final(chunks)@) == chunk_views(old(chunks)@).push(
            chunk_of(
                title@,
                old(chunks)@.len() as int,
                Draft { path: path@, piece: piece@ },
            ),
        ),
{
    let mut text: Vec<char> = copy_of(title);
    if path.len() > 0 {
        push_str(&mut text, " > ");
        push_all(&mut text, path);
    }
    push_str(&mut text, "\n\n");
    push_all(&mut text, piece);
    let n: usize = chunks.len();
    let chunk = Chunk {
        text: string_of(text.as_slice()),
        heading_path: string_of(path),
        ix: #[verifier::truncate] (n as i32),
        entities: strings_of(&extract_wikilinks(piece)),
    };
    let ghost made = chunk@;
    chunks.push(chunk);
    proof {
        assert(chunk_views(chunks@) =~= chunk_views(old(chunks)@).push(made));
    }
}

/// Chunks one markdown file.
///
/// `title` is the filename stem rather than the H1, and it is prepended to every
/// chunk's embedded text as `"{title} > {heading_path}"`, which is how a heading
/// travels into the vector and BM25 sides as well as into the rendered pointer.
pub fn parse_note(title: &str, source: &str) -> (note: ParsedNote)
    ensures
        note.title@ == title@,
        note.frontmatter@ == frontmatter_of(lines(source@)),
        chunk_views(note.chunks@) == note_chunks(title@, source@),
{
    let source = chars_of(source);
    let title = chars_of(title);
    let ls = split_lines(source.as_slice());
    let (frontmatter, start) = parse_frontmatter(&ls);
    let sections = cut_sections(&ls, start);
    let ghost all = note_sections(source@);
    let mut chunks: Vec<Chunk> = Vec::new();
    let mut i: usize = 0;
    proof {
        assert(chunk_views(chunks@) =~= chunks_of(title@, seq![]));
    }
    while i < sections.len()
        invariant
            i <= sections@.len(),
            cuts(sections@) == all,
            chunk_views(chunks@) == chunks_of(title@, all_drafts(all.take(i as int))),
        decreases sections.len() - i,
    {
        let section = &sections[i];
        let ghost done = all_drafts(all.take(i as int));
        let pieces = split_body(trim(section.body.as_slice()));
        let ghost list = texts(pieces@);
        proof {
            assert(all[i as int] == (Section { path: section.path@, body: section.body@ }));
            assert(all.take(i + 1).drop_last() =~= all.take(i as int));
            assert(done + drafts_of(section.path@, list.take(0)) =~= done);
        }
        let mut k: usize = 0;
        while k < pieces.len()
            invariant
                k <= pieces@.len(),
                texts(pieces@) == list,
                chunk_views(chunks@) == chunks_of(
                    title@,
                    done + drafts_of(section.path@, list.take(k as int)),
                ),
            decreases pieces.len() - k,
        {
            let piece = pieces[k].as_slice();
            let ghost so_far = done + drafts_of(section.path@, list.take(k as int));
            proof {
                assert(list[k as int] == piece@);
                assert(list.take(k + 1).drop_last() =~= list.take(k as int));
            }
            if !is_blank(piece) {
                proof {
                    assert(chunks@.len() == chunk_views(chunks@).len());
                }
                push_chunk(&mut chunks, title.as_slice(), section.path.as_slice(), piece);
                proof {
                    let d = Draft { path: section.path@, piece: piece@ };
                    assert(chunk_views(chunks@) =~= chunks_of(title@, so_far.push(d)));
                    assert(done + drafts_of(section.path@, list.take(k + 1)) =~= so_far.push(d));
                }
            }
            k += 1;
        }
        i += 1;
        proof {
            assert(list.take(k as int) =~= list);
        }
    }
    proof {
        assert(all.take(i as int) =~= all);
    }
    ParsedNote { title: string_of(title.as_slice()), frontmatter, chunks }
}

} // verus!
