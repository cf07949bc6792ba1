//! What the chunker reads of a note: its headings, its frontmatter and its links.
use vstd::prelude::*;
use crate::chunk::{
    body_pieces, body_start, closed_sections, entities_of, hashes, heading_level, heading_text,
    heading_texts, inline_tags, is_fence, link_target, link_targets, next_rule,
    no_heading_stands_above_its_sibling, no_sections, parents_of, parents_rank_higher, path_of,
    query_units, read_front_line, section_line, sectioned, sorted_distinct_is_sorted,
    FrontmatterReading, FrontmatterView, Section, Sectioning,
};
use crate::chunk_cover::is_part_of;
use crate::config::{HOOK_MAX_QUERY_UNITS, MAX_QUERY_UNITS};
use crate::line_laws::{trimmed_ignores, trimmed_is};
use crate::text::{
    blank, first, first_bounds, first_is, found, stripped, trimmed,
    trimmed_end, trimmed_start, white_space,
};
use crate::transcript_index::{
    fenced_after, read_on, read_on_concat, read_on_fence, sectioned_is_read_on,
};

verus! {

/// The line at a place is read as a heading: it looks like one, and no fence is open.
pub open spec fn is_heading_at(ls: Seq<Seq<char>>, j: int) -> bool {
    0 <= j < ls.len() && heading_level(ls[j]) is Some && !fenced_after(false, ls.take(j + 1))
}

/// The heading at a place stands above whatever follows the lines: no heading of its level
/// or above came after it.
pub open spec fn is_open_at(ls: Seq<Seq<char>>, j: int) -> bool {
    is_heading_at(ls, j) && forall|m: int|
        j < m && #[trigger] is_heading_at(ls, m) ==> heading_level(ls[m])->Some_0 > heading_level(
            ls[j],
        )->Some_0
}

/// The places are those of the headings of a stack, in order.
pub open spec fn are_places_of(
    ls: Seq<Seq<char>>,
    places: Seq<int>,
    stack: Seq<(int, Seq<char>)>,
) -> bool {
    &&& places.len() == stack.len()
    &&& forall|k: int|
        0 <= k < places.len() ==> is_open_at(ls, #[trigger] places[k]) && stack[k] == (
            heading_level(ls[places[k]])->Some_0,
            heading_text(ls[places[k]], heading_level(ls[places[k]])->Some_0),
        )
    &&& forall|k: int, m: int|
        0 <= k < m < places.len() ==> (#[trigger] places[k]) < (#[trigger] places[m])
    &&& forall|j: int| #[trigger] is_open_at(ls, j) ==> places.contains(j)
}

proof fn heading_of_a_prefix(ls: Seq<Seq<char>>, j: int)
    requires
        ls.len() > 0,
        0 <= j < ls.len() - 1,
    ensures
        is_heading_at(ls, j) == is_heading_at(ls.drop_last(), j),
        ls.drop_last()[j] == ls[j],
{
    assert(ls.drop_last().take(j + 1) =~= ls.take(j + 1));
}

/// The headings above a line are exactly those that no later heading of their level or
/// above has closed, in the order in which they stand.
pub proof fn the_headings_above_a_line_are_the_open_ones(ls: Seq<Seq<char>>) -> (places: Seq<int>)
    ensures
        are_places_of(ls, places, sectioned(ls).stack),
    decreases ls.len(),
{
    if ls.len() == 0 {
        seq![]
    } else {
        let rest = ls.drop_last();
        let n = ls.len() - 1;
        let before = sectioned(rest).stack;
        let stack = sectioned(ls).stack;
        let old_places = the_headings_above_a_line_are_the_open_ones(rest);
        sectioned_is_read_on(ls);
        read_on_fence(no_sections(), ls);
        assert(ls.take(n + 1) =~= ls);
        assert(is_heading_at(ls, n) <==> heading_level(ls.last()) is Some && !sectioned(
            ls,
        ).in_fence);
        assert forall|j: int| 0 <= j < n implies is_heading_at(ls, j) == is_heading_at(
            rest,
            j,
        ) && rest[j] == ls[j] by {
            heading_of_a_prefix(ls, j);
        }
        if is_heading_at(ls, n) {
            let level = heading_level(ls[n])->Some_0;
            let kept = parents_of(before, level);
            no_heading_stands_above_its_sibling(rest);
            parents_rank_higher(before, level);
            let places = old_places.take(kept.len() as int).push(n);
            assert(kept =~= before.subrange(0, kept.len() as int));
            assert forall|k: int| 0 <= k < places.len() implies is_open_at(
                ls,
                #[trigger] places[k],
            ) && stack[k] == (
                heading_level(ls[places[k]])->Some_0,
                heading_text(ls[places[k]], heading_level(ls[places[k]])->Some_0),
            ) by {
                if k < kept.len() {
                    let j = old_places[k];
                    assert(is_open_at(rest, j));
                    assert(kept[k] == before[k]);
                    assert(heading_level(ls[j])->Some_0 < level);
                    assert forall|m: int|
                        j < m && #[trigger] is_heading_at(ls, m) implies heading_level(
                        ls[m],
                    )->Some_0 > heading_level(ls[j])->Some_0 by {
                        if m < n {
                            assert(is_heading_at(rest, m));
                        }
                    }
                }
            }
            assert forall|k: int, m: int| 0 <= k < m < places.len() implies (
            #[trigger] places[k]) < (#[trigger] places[m]) by {
                assert(places[k] == old_places[k]);
                assert(is_open_at(rest, old_places[k]));
                if m < kept.len() {
                    assert(places[m] == old_places[m]);
                }
            }
            assert forall|j: int| #[trigger] is_open_at(ls, j) implies places.contains(j) by {
                if j == n {
                    assert(places[kept.len() as int] == n);
                } else {
                    assert(is_heading_at(ls, n));
                    assert(heading_level(ls[j])->Some_0 < level);
                    assert(is_open_at(rest, j)) by {
                        assert forall|m: int|
                            j < m && #[trigger] is_heading_at(rest, m) implies heading_level(
                            rest[m],
                        )->Some_0 > heading_level(rest[j])->Some_0 by {
                            assert(is_heading_at(ls, m));
                        }
                    }
                    let k = choose|k: int| 0 <= k < old_places.len() && old_places[k] == j;
                    assert(before[k].0 == heading_level(ls[j])->Some_0);
                    if k >= kept.len() {
                        assert(before[kept.len() as int].0 >= level);
                        if k > kept.len() {
                            assert(before[kept.len() as int].0 < before[k].0);
                        }
                    }
                    assert(places[k] == j);
                }
            }
            places
        } else {
            assert(stack == before);
            assert forall|j: int| is_open_at(ls, j) == is_open_at(rest, j) by {
                if is_open_at(ls, j) {
                    assert forall|m: int|
                        j < m && #[trigger] is_heading_at(rest, m) implies heading_level(
                        rest[m],
                    )->Some_0 > heading_level(rest[j])->Some_0 by {
                        assert(is_heading_at(ls, m));
                    }
                }
                if is_open_at(rest, j) {
                    assert forall|m: int|
                        j < m && #[trigger] is_heading_at(ls, m) implies heading_level(
                        ls[m],
                    )->Some_0 > heading_level(ls[j])->Some_0 by {
                        assert(is_heading_at(rest, m));
                    }
                }
            }
            assert forall|k: int| 0 <= k < old_places.len() implies is_open_at(
                ls,
                #[trigger] old_places[k],
            ) && stack[k] == (
                heading_level(ls[old_places[k]])->Some_0,
                heading_text(ls[old_places[k]], heading_level(ls[old_places[k]])->Some_0),
            ) by {
                assert(is_open_at(rest, old_places[k]));
            }
            assert forall|j: int| #[trigger] is_open_at(ls, j) implies old_places.contains(j) by {
                assert(is_open_at(rest, j));
            }
            old_places
        }
    }
}

/// A path is its headings with an arrow between each two: one heading alone is the path,
/// and a further one stands behind the path of those above it.
pub proof fn a_path_names_every_heading(stack: Seq<(int, Seq<char>)>, h: (int, Seq<char>))
    ensures
        path_of(stack.push(h)) == if stack.len() == 0 {
            h.1
        } else {
            path_of(stack) + " > "@ + h.1
        },
        path_of(seq![]).len() == 0,
{
    let all = heading_texts(stack.push(h));
    assert(all.drop_last() =~= heading_texts(stack));
    assert(heading_texts(Seq::<(int, Seq<char>)>::empty()) =~= seq![]);
}

/// A section with the given path holds the given text.
pub open spec fn holds_under(sections: Seq<Section>, path: Seq<char>, part: Seq<char>) -> bool {
    exists|i: int|
        0 <= i < sections.len() && (#[trigger] sections[i]).path == path && is_part_of(
            part,
            sections[i].body,
        )
}

proof fn held_after_a_line(s: Sectioning, l: Seq<char>, path: Seq<char>, part: Seq<char>)
    requires
        holds_under(closed_sections(s), path, part),
        !blank(part),
    ensures
        holds_under(closed_sections(section_line(s, l)), path, part),
{
    let c = closed_sections(s);
    let next = section_line(s, l);
    let d = closed_sections(next);
    let i = choose|i: int|
        0 <= i < c.len() && (#[trigger] c[i]).path == path && is_part_of(part, c[i].body);
    let (u, v) = choose|u: Seq<char>, v: Seq<char>| c[i].body == #[trigger] (u + part + v);
    if i < s.sections.len() || next.sections == c {
        assert(d[i] == c[i]);
    } else {
        let more = l.push('\n');
        assert(next.body == s.body + more);
        assert(next.body =~= u + part + (v + more));
        assert(!blank(next.body)) by {
            let k = choose|k: int| 0 <= k < part.len() && !white_space(part[k]);
            assert(next.body[u.len() + k] == part[k]);
        }
        assert(d[i].body == next.body);
        assert(d[i].path == c[i].path);
    }
}

proof fn held_after_lines(s: Sectioning, ls: Seq<Seq<char>>, path: Seq<char>, part: Seq<char>)
    requires
        holds_under(closed_sections(s), path, part),
        !blank(part),
    ensures
        holds_under(closed_sections(read_on(s, ls)), path, part),
    decreases ls.len(),
{
    if ls.len() > 0 {
        held_after_lines(s, ls.drop_last(), path, part);
        held_after_a_line(read_on(s, ls.drop_last()), ls.last(), path, part);
    }
}

/// Every line of a note that says something and is no heading stands in a section whose
/// path names the headings that are open there, and no others.
pub proof fn a_line_stands_under_its_open_headings(ls: Seq<Seq<char>>, i: int)
    requires
        0 <= i < ls.len(),
        !is_heading_at(ls, i),
        !blank(ls[i]),
    ensures
        holds_under(
            closed_sections(sectioned(ls)),
            path_of(sectioned(ls.take(i)).stack),
            ls[i].push('\n'),
        ),
{
    let before = ls.take(i);
    let l = ls[i];
    let head = ls.take(i + 1);
    let after = ls.skip(i + 1);
    let mid = sectioned(before);
    let end = sectioned(head);
    let part = l.push('\n');
    assert(head.drop_last() =~= before);
    assert(head.last() == l);
    assert(ls =~= head + after);
    sectioned_is_read_on(head);
    sectioned_is_read_on(ls);
    read_on_fence(no_sections(), head);
    read_on_concat(no_sections(), head, after);
    assert(end.body == mid.body + part);
    assert(end.stack == mid.stack);
    assert(!blank(part)) by {
        let k = choose|k: int| 0 <= k < l.len() && !white_space(l[k]);
        assert(part[k] == l[k]);
    }
    let c = closed_sections(end);
    assert(!blank(end.body)) by {
        let k = choose|k: int| 0 <= k < part.len() && !white_space(part[k]);
        assert(end.body[mid.body.len() + k] == part[k]);
    }
    assert(end.body =~= mid.body + part + seq![]);
    let n = c.len() - 1;
    assert(c[n].path == path_of(mid.stack) && is_part_of(part, c[n].body));
    held_after_lines(end, after, path_of(mid.stack), part);
}

/// The body of a note starts behind its frontmatter, where it has any: the first line is a
/// rule, and the line before the body is the next one.
pub proof fn the_body_starts_behind_the_frontmatter(ls: Seq<Seq<char>>)
    ensures
        0 <= body_start(ls) <= ls.len(),
        body_start(ls) == 0 <==> ls.len() == 0 || trimmed_end(ls[0]) != "---"@ || forall|j: int|
            1 <= j < ls.len() ==> trimmed_end(#[trigger] ls[j]) != "---"@,
        body_start(ls) > 0 ==> body_start(ls) >= 2 && trimmed_end(ls[body_start(ls) - 1]) == "---"@
            && forall|j: int|
            1 <= j < body_start(ls) - 1 ==> trimmed_end(#[trigger] ls[j]) != "---"@,
{
    rule_is_next(ls, 1);
}

proof fn rule_is_next(ls: Seq<Seq<char>>, i: int)
    requires
        0 <= i,
    ensures
        next_rule(ls, i) matches Some(k) ==> i <= k < ls.len() && trimmed_end(ls[k]) == "---"@
            && forall|j: int| i <= j < k ==> trimmed_end(#[trigger] ls[j]) != "---"@,
        next_rule(ls, i) is None ==> forall|j: int|
            i <= j < ls.len() ==> trimmed_end(#[trigger] ls[j]) != "---"@,
    decreases ls.len() - i,
{
    if i < ls.len() && trimmed_end(ls[i]) != "---"@ {
        rule_is_next(ls, i + 1);
    }
}

/// A value that means itself: it says something, and neither white space nor a quote is at
/// its ends.
pub open spec fn is_plain_value(v: Seq<char>) -> bool {
    &&& v.len() > 0
    &&& !white_space(v[0]) && v[0] != '"' && v[0] != '\''
    &&& !white_space(v.last()) && v.last() != '"' && v.last() != '\''
}

proof fn a_plain_value_is_read_as_it_is(v: Seq<char>)
    requires
        is_plain_value(v),
    ensures
        trimmed(seq![' '] + v) == v,
        trimmed(v) == v,
        stripped(v, '"') == v,
        stripped(v, '\'') == v,
{
    let e = Seq::<char>::empty();
    assert(trimmed_start(v) == v);
    assert(trimmed_end(v) == v);
    assert(seq![' '] + v =~= seq![' '] + v + e);
    trimmed_ignores(seq![' '], v, e);
}

/// A key and its value are read: the two keys that the index knows take the value as it
/// is, and neither touches the other or the tags.
pub proof fn a_key_is_read_with_its_value(r: FrontmatterReading, v: Seq<char>)
    requires
        is_plain_value(v),
    ensures
        read_front_line(r, "type: "@ + v).front == (FrontmatterView { note_type: v, ..r.front }),
        read_front_line(r, "captured: "@ + v).front == (FrontmatterView { captured: v, ..r.front }),
{
    a_line_is_key_and_value("type"@, v);
    a_line_is_key_and_value("captured"@, v);
    reveal_strlit("type");
    reveal_strlit("captured");
    reveal_strlit("type: ");
    reveal_strlit("captured: ");
    assert("type: "@ + v =~= "type"@ + seq![':', ' '] + v);
    assert("captured: "@ + v =~= "captured"@ + seq![':', ' '] + v);
    assert("type"@.len() != "captured"@.len());
    assert("type"@ != "captured"@);
}

proof fn a_line_is_key_and_value(key: Seq<char>, v: Seq<char>)
    requires
        key == "type"@ || key == "captured"@,
        is_plain_value(v),
    ensures
        ({
            let raw = key + seq![':', ' '] + v;
            let line = trimmed_end(raw);
            let colon = first(line, ':') as int;
            &&& line == raw
            &&& !"- "@.is_prefix_of(trimmed_start(line))
            &&& colon < line.len()
            &&& trimmed(line.take(colon)) == key
            &&& stripped(stripped(trimmed(line.skip(colon + 1)), '"'), '\'') == v
        }),
{
    reveal_strlit("type");
    reveal_strlit("captured");
    reveal_strlit("- ");
    let raw = key + seq![':', ' '] + v;
    let n = key.len() as int;
    assert(raw.last() == v.last());
    assert(trimmed_end(raw) == raw);
    assert(raw[0] == key[0]);
    assert(trimmed_start(raw) == raw);
    assert(!"- "@.is_prefix_of(raw)) by {
        if "- "@.is_prefix_of(raw) {
            assert(raw.subrange(0, 2)[0] == raw[0]);
        }
    }
    assert forall|j: int| 0 <= j < n implies raw[j] != ':' by {
        assert(raw[j] == key[j]);
    }
    first_is(raw, ':', n);
    assert(raw.take(n) =~= key);
    assert(trimmed_start(key) == key);
    assert(trimmed_end(key) == key);
    assert(raw.skip(n + 1) =~= seq![' '] + v);
    a_plain_value_is_read_as_it_is(v);
}

/// Lines read in order, from a given state.
pub open spec fn read_front_on(r: FrontmatterReading, ls: Seq<Seq<char>>) -> FrontmatterReading
    decreases ls.len(),
{
    if ls.len() == 0 {
        r
    } else {
        read_front_line(read_front_on(r, ls.drop_last()), ls.last())
    }
}

/// Every item of a list of tags is a tag, in order, however many there are.
pub proof fn every_listed_tag_is_read(r: FrontmatterReading, tags: Seq<Seq<char>>)
    requires
        r.key == Some("tags"@),
        forall|i: int| 0 <= i < tags.len() ==> is_plain_value(#[trigger] tags[i]),
    ensures
        ({
            let after = read_front_on(r, tags.map_values(|v: Seq<char>| "  - "@ + v));
            &&& after.front == (FrontmatterView { tags: r.front.tags + tags, ..r.front })
            &&& after.key == r.key
        }),
    decreases tags.len(),
{
    let ls = tags.map_values(|v: Seq<char>| "  - "@ + v);
    if tags.len() > 0 {
        let rest = tags.drop_last();
        let v = tags.last();
        assert forall|i: int| 0 <= i < rest.len() implies is_plain_value(#[trigger] rest[i]) by {
            assert(rest[i] == tags[i]);
        }
        every_listed_tag_is_read(r, rest);
        assert(ls.drop_last() =~= rest.map_values(|v: Seq<char>| "  - "@ + v));
        assert(is_plain_value(tags[tags.len() - 1]));
        reveal_strlit("  - ");
        reveal_strlit("- ");
        let raw = "  - "@ + v;
        let item = "- "@ + v;
        assert(raw.last() == v.last());
        assert(trimmed_end(raw) == raw);
        assert(raw.skip(1).skip(1) =~= item);
        assert(raw.skip(1)[0] == ' ');
        assert(trimmed_start(item) == item);
        assert(trimmed_start(raw.skip(1)) == trimmed_start(raw.skip(1).skip(1)));
        assert(trimmed_start(raw) == item);
        assert("- "@ =~= item.subrange(0, 2));
        assert(item.skip(2) =~= v);
        a_plain_value_is_read_as_it_is(v);
        assert(r.front.tags + tags =~= (r.front.tags + rest).push(v));
    } else {
        assert(r.front.tags + tags =~= r.front.tags);
    }
}

/// Every item of an inline list that says something is a tag, in order.
pub proof fn every_inline_tag_is_read(items: Seq<Seq<char>>)
    requires
        forall|i: int|
            0 <= i < items.len() ==> stripped(trimmed(#[trigger] items[i]), '"').len() > 0,
    ensures
        inline_tags(items) == items.map_values(|i: Seq<char>| stripped(trimmed(i), '"')),
    decreases items.len(),
{
    let all = items.map_values(|i: Seq<char>| stripped(trimmed(i), '"'));
    if items.len() > 0 {
        let rest = items.drop_last();
        assert forall|i: int| 0 <= i < rest.len() implies stripped(
            trimmed(#[trigger] rest[i]),
            '"',
        ).len() > 0 by {
            assert(rest[i] == items[i]);
        }
        every_inline_tag_is_read(rest);
        assert(stripped(trimmed(items[items.len() - 1]), '"').len() > 0);
        assert(all =~= inline_tags(rest).push(stripped(trimmed(items.last()), '"')));
    } else {
        assert(all =~= seq![]);
    }
}

proof fn links_start_at_a_bracket(a: Seq<char>, b: Seq<char>)
    requires
        !a.contains('['),
    ensures
        link_targets(a + b) == link_targets(b),
    decreases a.len(),
{
    if a.len() == 0 {
        assert(a + b =~= b);
    } else {
        let rest = a.skip(1);
        assert(a.contains(a[0]));
        assert(!rest.contains('[')) by {
            if rest.contains('[') {
                let k = choose|k: int| 0 <= k < rest.len() && rest[k] == '[';
                assert(a[k + 1] == '[');
            }
        }
        links_start_at_a_bracket(rest, b);
        assert((a + b).skip(1) =~= rest + b);
        assert((a + b)[0] == a[0]);
        if (a + b).len() < 2 {
            assert(b.len() < 2);
        }
    }
}

/// Every link names its target, whatever stands around it: the text between its brackets,
/// up to an alias or a heading. What follows the link is read on.
pub proof fn a_link_names_its_target(
    before: Seq<char>,
    name: Seq<char>,
    more: Seq<char>,
    after: Seq<char>,
)
    requires
        !before.contains('['),
        !name.contains(']'),
        !name.contains('|'),
        !name.contains('#'),
        !blank(name),
        !more.contains(']'),
        more.len() > 0 ==> more[0] == '|' || more[0] == '#',
    ensures
        ({
            let s = before + seq!['[', '['] + name + more + seq![']', ']'] + after;
            &&& link_targets(s) == seq![trimmed(name)] + link_targets(after)
            &&& entities_of(s).contains(trimmed(name))
        }),
{
    let open = seq!['[', '['];
    let close = seq![']', ']'];
    let inner = name + more;
    let rest = open + inner + close + after;
    let s = before + open + name + more + close + after;
    assert(s =~= before + rest);
    assert(!inner.contains(']')) by {
        if inner.contains(']') {
            let k = choose|k: int| 0 <= k < inner.len() && inner[k] == ']';
            if k < name.len() {
                assert(name.contains(name[k]));
            } else {
                assert(more.contains(more[k - name.len()]));
            }
        }
    }
    links_start_at_a_bracket(before, rest);
    a_link_is_read_up_to_its_end(inner, after);
    a_target_ends_at_an_alias(name, more);
    trimmed_is(name);
    sorted_distinct_is_sorted(link_targets(s));
    assert(link_targets(s)[0] == trimmed(name));
}

proof fn a_link_is_read_up_to_its_end(inner: Seq<char>, after: Seq<char>)
    requires
        !inner.contains(']'),
    ensures
        link_targets(seq!['[', '['] + inner + seq![']', ']'] + after) == seq![link_target(inner)]
            + link_targets(after),
{
    let open = seq!['[', '['];
    let close = seq![']', ']'];
    let rest = open + inner + close + after;
    let n: int = 2 + inner.len() as int;
    a_link_ends_at_its_brackets(inner, after);
    assert(rest[0] == '[' && rest[1] == '[');
    assert(rest.len() == n + 2 + after.len());
    assert(rest.subrange(2, n) =~= inner);
    assert(rest.skip(n + 2) =~= after);
}

proof fn a_link_ends_at_its_brackets(inner: Seq<char>, after: Seq<char>)
    requires
        !inner.contains(']'),
    ensures
        found(seq!['[', '['] + inner + seq![']', ']'] + after, seq![']', ']'], 2) == Some(
            2 + inner.len() as int,
        ),
{
    let close = seq![']', ']'];
    let head = seq!['[', '['] + inner;
    assert forall|j: int| 2 <= j < head.len() implies #[trigger] head[j] != close[0] by {
        assert(head[j] == inner[j - 2]);
        assert(inner.contains(inner[j - 2]));
    }
    found_behind(head, close, after, 2);
}

/// What stands behind a text that its first character does not occur in is found there.
proof fn found_behind(head: Seq<char>, p: Seq<char>, after: Seq<char>, i: int)
    requires
        p.len() > 0,
        0 <= i <= head.len(),
        forall|j: int| i <= j < head.len() ==> #[trigger] head[j] != p[0],
    ensures
        found(head + p + after, p, i) == Some(head.len() as int),
    decreases head.len() - i,
{
    let s = head + p + after;
    if i == head.len() {
        assert(s.subrange(i, i + p.len()) =~= p);
    } else {
        found_behind(head, p, after, i + 1);
        assert(s.subrange(i, i + p.len())[0] == head[i]);
    }
}

proof fn a_target_ends_at_an_alias(name: Seq<char>, more: Seq<char>)
    requires
        !name.contains('|'),
        !name.contains('#'),
        more.len() > 0 ==> more[0] == '|' || more[0] == '#',
    ensures
        link_target(name + more) == trimmed(name),
{
    let inner = name + more;
    let k = name.len() as int;
    first_bounds(inner, '|');
    first_bounds(inner, '#');
    assert forall|j: int| 0 <= j < k implies inner[j] != '|' && inner[j] != '#' by {
        assert(inner[j] == name[j]);
        assert(name.contains(name[j]));
    }
    let bar = first(inner, '|') as int;
    let hash = first(inner, '#') as int;
    if more.len() > 0 {
        assert(inner[k] == more[0]);
    } else {
        assert(inner =~= name);
    }
    assert(bar >= k && hash >= k);
    assert(inner.take(k) =~= name);
}

/// A text without an opening bracket has no links.
pub proof fn a_text_without_brackets_has_no_links(s: Seq<char>)
    requires
        !s.contains('['),
    ensures
        entities_of(s).len() == 0,
{
    let e = Seq::<char>::empty();
    links_start_at_a_bracket(s, e);
    assert(s + e =~= s);
}

/// A query is searched in as many units as the cap allows, and in all its pieces where
/// there are no more: what is left out is left out of the middle alone.
pub proof fn a_query_is_searched_to_its_cap(query: Seq<char>, max: nat)
    requires
        !blank(query),
    ensures
        ({
            let units = query_units(query, max);
            let all = body_pieces(query);
            &&& units.len() == if all.len() <= max {
                all.len()
            } else {
                max
            }
            &&& all.len() <= max ==> units == all
            &&& all.len() > max ==> exists|k: int|
                0 <= k <= max && units == #[trigger] all.take(k) + all.skip(
                    all.len() - (max - k),
                ) && (max >= 2 ==> 0 < k < max)
        }),
{
    let all = body_pieces(query);
    if all.len() > max {
        let k = max as int / 2;
        assert(query_units(query, max) == all.take(k) + all.skip(all.len() - (max - k)));
    }
}

proof fn hashes_count(t: Seq<char>)
    ensures
        hashes(t) <= t.len(),
        forall|j: int| 0 <= j < hashes(t) ==> #[trigger] t[j] == '#',
        hashes(t) < t.len() ==> t[hashes(t) as int] != '#',
    decreases t.len(),
{
    if t.len() > 0 && t[0] == '#' {
        hashes_count(t.skip(1));
        assert forall|j: int| 0 <= j < hashes(t) implies #[trigger] t[j] == '#' by {
            if j > 0 {
                assert(t.skip(1)[j - 1] == t[j]);
            }
        }
    }
}

/// A line is a heading of a level exactly where, leading white space aside, it begins with
/// as many marks as the level says, one to six, and a blank; its text is what follows,
/// without the white space around it.
pub proof fn a_heading_is_marks_and_a_blank(line: Seq<char>, n: int)
    requires
        0 <= n,
    ensures
        heading_level(line) == Some(n) <==> 1 <= n <= 6 && n < trimmed_start(line).len()
            && trimmed_start(line)[n] == ' ' && forall|j: int|
            0 <= j < n ==> #[trigger] trimmed_start(line)[j] == '#',
        heading_level(line) == Some(n) ==> heading_text(line, n) == trimmed(
            trimmed_start(line).skip(n + 1),
        ),
{
    let t = trimmed_start(line);
    hashes_count(t);
    let h = hashes(t) as int;
    if 1 <= n <= 6 && n < t.len() && t[n] == ' ' && forall|j: int| 0 <= j < n ==> #[trigger] t[j]
        == '#' {
        if h < n {
            assert(t[h] == '#');
        }
        if n < h {
            assert(t[n] == '#');
        }
    }
}

/// A search is split into at most eight units, and the hook's into at most four.
pub proof fn searches_are_split_within_their_budgets(query: Seq<char>)
    ensures
        query_units(query, MAX_QUERY_UNITS as nat).len() <= 8,
        query_units(query, HOOK_MAX_QUERY_UNITS as nat).len() <= 4,
{
}

/// How many lines of a list open or close a fence: those that begin, white space aside,
/// with three backticks or three tildes.
pub open spec fn fences_in(ls: Seq<Seq<char>>) -> nat
    decreases ls.len(),
{
    if ls.len() == 0 {
        0
    } else {
        let t = trimmed_start(ls.last());
        fences_in(ls.drop_last()) + if t.len() >= 3 && (t[0] == '`' || t[0] == '~') && t[1] == t[0]
            && t[2] == t[0] {
            1nat
        } else {
            0nat
        }
    }
}

/// A line stands in a fence exactly where an odd number of fence lines came before: every
/// fence line opens one or closes the open one.
pub proof fn a_fence_is_open_between_two_fence_lines(ls: Seq<Seq<char>>)
    ensures
        sectioned(ls).in_fence <==> fences_in(ls) % 2 == 1,
    decreases ls.len(),
{
    if ls.len() > 0 {
        a_fence_is_open_between_two_fence_lines(ls.drop_last());
        let t = trimmed_start(ls.last());
        reveal_strlit("```");
        reveal_strlit("~~~");
        if t.len() >= 3 {
            let head = t.subrange(0, 3);
            if (t[0] == '`' || t[0] == '~') && t[1] == t[0] && t[2] == t[0] {
                if t[0] == '`' {
                    assert("```"@ =~= head);
                } else {
                    assert("~~~"@ =~= head);
                }
            }
            if "```"@ == head || "~~~"@ == head {
                assert(head[0] == t[0] && head[1] == t[1] && head[2] == t[2]);
            }
        }
        assert(is_fence(ls.last()) <==> t.len() >= 3 && (t[0] == '`' || t[0] == '~') && t[1] == t[0]
            && t[2] == t[0]);
    }
}

} // verus!
