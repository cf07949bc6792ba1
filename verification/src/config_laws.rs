//! What holds of every configuration of roots.
use vstd::prelude::*;
use crate::chunk_laws::{joined_front, pieces_join};
use crate::config::{
    entries_of, label_problem, owning_root, pairs_of, repeated_label, repeats, root_holding,
    roots_named, roots_of, EntryView, Environment, PathProbe, Problem, RootView,
};
use crate::path::{below, inside};
use crate::text::{first, first_bounds, first_is, found_is_first, joined, pieces, stands_at};

verus! {

/// An entry as it is written.
pub open spec fn entry_text(e: EntryView) -> Seq<char> {
    e.label + seq!['='] + e.path
}

/// Entries as a specification: divided by colons.
pub open spec fn spec_of(entries: Seq<EntryView>) -> Seq<char> {
    joined(entries.map_values(|e: EntryView| entry_text(e)), seq![':'])
}

/// A list that is joined by a character which none of its texts holds is cut at that
/// character into its texts.
proof fn joined_is_cut_into_its_texts(list: Seq<Seq<char>>, c: char)
    requires
        list.len() > 0,
        forall|i: int| 0 <= i < list.len() ==> !(#[trigger] list[i]).contains(c),
    ensures
        pieces(joined(list, seq![c]), seq![c]) == list,
    decreases list.len(),
{
    let sep = seq![c];
    let whole = joined(list, sep);
    let head = list[0];
    assert(!list[0].contains(c));
    found_is_first(whole, sep, 0);
    if list.len() == 1 {
        assert(whole == head);
        assert forall|k: int| !#[trigger] stands_at(whole, sep, k) by {
            if stands_at(whole, sep, k) {
                assert(whole.subrange(k, k + 1)[0] == whole[k]);
                assert(head.contains(whole[k]));
            }
        }
        assert(pieces(whole, sep) =~= list);
    } else {
        let rest = list.skip(1);
        let n = head.len() as int;
        assert(list =~= seq![head] + rest);
        joined_front(head, rest, sep);
        assert forall|i: int| 0 <= i < rest.len() implies !(#[trigger] rest[i]).contains(c) by {
            assert(rest[i] == list[i + 1]);
        }
        joined_is_cut_into_its_texts(rest, c);
        assert(stands_at(whole, sep, n)) by {
            assert(whole.subrange(n, n + 1) =~= sep);
        }
        assert forall|k: int| 0 <= k < n implies !#[trigger] stands_at(whole, sep, k) by {
            if stands_at(whole, sep, k) {
                assert(whole.subrange(k, k + 1)[0] == whole[k]);
                assert(head[k] == whole[k]);
                assert(head.contains(c));
            }
        }
        assert(whole.take(n) =~= head);
        assert(whole.skip(n + 1) =~= joined(rest, sep));
        assert(pieces(whole, sep) =~= list);
    }
}

proof fn pairs_read_back(spec: Seq<char>, entries: Seq<EntryView>)
    requires
        forall|i: int| 0 <= i < entries.len() ==> !(#[trigger] entries[i]).label.contains('='),
    ensures
        pairs_of(spec, entries.map_values(|e: EntryView| entry_text(e))) == Ok::<Seq<EntryView>, Problem>(entries),
    decreases entries.len(),
{
    let list = entries.map_values(|e: EntryView| entry_text(e));
    if entries.len() > 0 {
        let rest = entries.drop_last();
        let e = entries.last();
        assert forall|i: int| 0 <= i < rest.len() implies !(
        #[trigger] rest[i]).label.contains('=') by {
            assert(rest[i] == entries[i]);
        }
        pairs_read_back(spec, rest);
        assert(list.drop_last() =~= rest.map_values(|e: EntryView| entry_text(e)));
        assert(!entries[entries.len() - 1].label.contains('='));
        let entry = entry_text(e);
        let n = e.label.len() as int;
        assert forall|j: int| 0 <= j < n implies entry[j] != '=' by {
            assert(entry[j] == e.label[j]);
            assert(e.label.contains(e.label[j]));
        }
        first_is(entry, '=', n);
        assert(entry.take(n) =~= e.label);
        assert(entry.skip(n + 1) =~= e.path);
        assert(entries =~= rest.push(e));
    } else {
        assert(entries =~= seq![]);
    }
}

/// A specification reads back: entries whose labels hold no separator and whose paths hold
/// no colon, written one behind the other, are read as those entries, all of them and in
/// order.
pub proof fn entries_read_back(entries: Seq<EntryView>)
    requires
        entries.len() > 0,
        forall|i: int|
            0 <= i < entries.len() ==> label_problem((#[trigger] entries[i]).label) is None
                && !entries[i].path.contains(':'),
    ensures
        entries_of(spec_of(entries)) == Ok::<Seq<EntryView>, Problem>(entries),
{
    let list = entries.map_values(|e: EntryView| entry_text(e));
    let spec = spec_of(entries);
    assert forall|i: int| 0 <= i < list.len() implies !(#[trigger] list[i]).contains(':') by {
        let e = entries[i];
        assert(label_problem(e.label) is None && !e.path.contains(':'));
        if list[i].contains(':') {
            let k = choose|k: int| 0 <= k < list[i].len() && list[i][k] == ':';
            if k < e.label.len() {
                assert(e.label[k] == ':');
            } else if k > e.label.len() {
                assert(e.path[k - e.label.len() - 1] == ':');
            }
        }
    }
    joined_is_cut_into_its_texts(list, ':');
    pairs_read_back(spec, entries);
    assert(spec.len() > 0) by {
        assert(list[0].len() > 0);
        if list.len() == 1 {
            assert(spec == list[0]);
        } else {
            assert(list =~= seq![list[0]] + list.skip(1));
            joined_front(list[0], list.skip(1), seq![':']);
        }
    }
}

proof fn pairs_are_written(spec: Seq<char>, list: Seq<Seq<char>>)
    ensures
        pairs_of(spec, list) matches Ok(entries) ==> entries.map_values(
            |e: EntryView| entry_text(e),
        ) == list,
    decreases list.len(),
{
    if list.len() > 0 {
        pairs_are_written(spec, list.drop_last());
        if pairs_of(spec, list) is Ok {
            let entry = list.last();
            let entries = pairs_of(spec, list)->Ok_0;
            let before = pairs_of(spec, list.drop_last())->Ok_0;
            first_bounds(entry, '=');
            assert(entry_text(entries.last()) =~= entry);
            assert(entries.map_values(|e: EntryView| entry_text(e)) =~= before.map_values(
                |e: EntryView| entry_text(e),
            ).push(entry));
        }
    } else if pairs_of(spec, list) is Ok {
        assert(pairs_of(spec, list)->Ok_0.map_values(|e: EntryView| entry_text(e)) =~= list);
    }
}

/// No entry is dropped and none is made up: whatever is read as entries is, written out
/// again, the specification it was read from.
pub proof fn entries_are_the_whole_specification(spec: Seq<char>)
    ensures
        entries_of(spec) matches Ok(entries) ==> spec_of(entries) == spec && entries.len() > 0,
{
    pieces_join(spec, seq![':']);
    pairs_are_written(spec, pieces(spec, seq![':']));
}

proof fn named_roots_are(entries: Seq<EntryView>, probes: Seq<PathProbe>)
    requires
        entries.len() <= probes.len(),
    ensures
        roots_named(entries, probes) matches Ok(roots) ==> roots.len() == entries.len() && forall|
            i: int,
        |
            0 <= i < roots.len() ==> (#[trigger] roots[i]).label == entries[i].label && (
            probes[i] matches PathProbe::Resolved(dir) && roots[i].dir == dir@) && label_problem(
                roots[i].label,
            ) is None,
        (forall|i: int|
            0 <= i < entries.len() ==> label_problem((#[trigger] entries[i]).label) is None
                && probes[i] is Resolved) ==> roots_named(entries, probes) is Ok,
    decreases entries.len(),
{
    if entries.len() > 0 {
        let rest = entries.drop_last();
        let n = entries.len() - 1;
        named_roots_are(rest, probes);
        if roots_named(entries, probes) is Ok {
            let before = roots_named(rest, probes)->Ok_0;
            let roots = roots_named(entries, probes)->Ok_0;
            assert forall|i: int| 0 <= i < roots.len() implies (#[trigger] roots[i]).label
                == entries[i].label && (probes[i] matches PathProbe::Resolved(dir) && roots[i].dir
                == dir@) && label_problem(roots[i].label) is None by {
                if i < n {
                    assert(roots[i] == before[i]);
                    assert(rest[i] == entries[i]);
                }
            }
        }
        if forall|i: int|
            0 <= i < entries.len() ==> label_problem((#[trigger] entries[i]).label) is None
                && probes[i] is Resolved {
            assert forall|i: int| 0 <= i < rest.len() implies label_problem(
                (#[trigger] rest[i]).label,
            ) is None && probes[i] is Resolved by {
                assert(rest[i] == entries[i]);
            }
            assert(label_problem(entries[n].label) is None);
        }
    }
}

proof fn no_repeated_label(roots: Seq<RootView>, i: int)
    requires
        0 <= i,
    ensures
        repeated_label(roots, i) is None <==> forall|k: int|
            i <= k < roots.len() ==> !#[trigger] repeats(roots, k),
    decreases roots.len() - i,
{
    if i < roots.len() && !repeats(roots, i) {
        no_repeated_label(roots, i + 1);
    }
}

/// A root is configured for every entry, and for each under its own label with the
/// directory that its path resolved to: a configuration is taken whole or refused.
pub proof fn a_configuration_is_taken_whole(spec: Seq<char>, probes: Seq<PathProbe>)
    requires
        entries_of(spec) matches Ok(entries) ==> entries.len() == probes.len(),
    ensures
        roots_of(spec, probes) matches Ok(roots) ==> (entries_of(spec) matches Ok(entries)
            && roots.len() == entries.len() && forall|i: int|
            0 <= i < roots.len() ==> (#[trigger] roots[i]).label == entries[i].label && (
            probes[i] matches PathProbe::Resolved(dir) && roots[i].dir == dir@)),
        roots_of(spec, probes) matches Ok(roots) ==> forall|i: int, j: int|
            0 <= i < j < roots.len() ==> (#[trigger] roots[i]).label != (#[trigger] roots[j]).label,
{
    if roots_of(spec, probes) is Ok {
        let entries = entries_of(spec)->Ok_0;
        let roots = roots_of(spec, probes)->Ok_0;
        named_roots_are(entries, probes);
        no_repeated_label(roots, 0);
        assert forall|i: int, j: int| 0 <= i < j < roots.len() implies (#[trigger] roots[i]).label
            != (#[trigger] roots[j]).label by {
            assert(!repeats(roots, j));
        }
    }
}

/// A configuration that nothing is wrong with is taken: valid and distinct labels, paths
/// without a colon, and directories that are there.
pub proof fn a_good_configuration_is_taken(entries: Seq<EntryView>, probes: Seq<PathProbe>)
    requires
        entries.len() > 0,
        entries.len() == probes.len(),
        forall|i: int|
            0 <= i < entries.len() ==> label_problem((#[trigger] entries[i]).label) is None
                && !entries[i].path.contains(':') && probes[i] is Resolved,
        forall|i: int, j: int|
            0 <= i < j < entries.len() ==> (#[trigger] entries[i]).label != (
            #[trigger] entries[j]).label,
    ensures
        roots_of(spec_of(entries), probes) is Ok,
{
    entries_read_back(entries);
    assert forall|i: int| 0 <= i < entries.len() implies label_problem(
        (#[trigger] entries[i]).label,
    ) is None && probes[i] is Resolved by {}
    named_roots_are(entries, probes);
    let roots = roots_named(entries, probes)->Ok_0;
    no_repeated_label(roots, 0);
    assert forall|k: int| 0 <= k < roots.len() implies !#[trigger] repeats(roots, k) by {
        if repeats(roots, k) {
            let j = choose|j: int| 0 <= j < k && (#[trigger] roots[j]).label == roots[k].label;
            assert(entries[j].label == entries[k].label);
        }
    }
}

proof fn holding_is_first(roots: Seq<RootView>, path: Seq<char>, i: int)
    requires
        0 <= i,
    ensures
        root_holding(roots, path, i) matches Some(k) ==> i <= k < roots.len() && inside(
            roots[k].dir,
            path,
        ) is Some && forall|j: int| i <= j < k ==> inside((#[trigger] roots[j]).dir, path) is None,
        root_holding(roots, path, i) is None ==> forall|j: int|
            i <= j < roots.len() ==> inside((#[trigger] roots[j]).dir, path) is None,
    decreases roots.len() - i,
{
    if i < roots.len() && inside(roots[i].dir, path) is None {
        holding_is_first(roots, path, i + 1);
    }
}

/// A path belongs to the first root that it lies in as it is written; where it lies in
/// none, to the first that it lies in once resolved; and to none exactly where it lies in
/// none either way.
pub proof fn a_path_belongs_to_the_first_root_that_holds_it(
    roots: Seq<RootView>,
    path: Seq<char>,
    resolved: Option<Seq<char>>,
)
    ensures
        owning_root(roots, path, resolved) matches Some(k) ==> 0 <= k < roots.len() && (inside(
            roots[k].dir,
            path,
        ) is Some || (resolved matches Some(actual) && inside(roots[k].dir, actual) is Some
            && forall|j: int|
            0 <= j < roots.len() ==> inside((#[trigger] roots[j]).dir, path) is None)),
        owning_root(roots, path, resolved) matches Some(k) ==> inside(roots[k].dir, path) is Some
            ==> forall|j: int| 0 <= j < k ==> inside((#[trigger] roots[j]).dir, path) is None,
        owning_root(roots, path, resolved) is None ==> forall|j: int|
            0 <= j < roots.len() ==> inside((#[trigger] roots[j]).dir, path) is None && (
            resolved matches Some(actual) ==> inside(roots[j].dir, actual) is None),
{
    holding_is_first(roots, path, 0);
    if resolved is Some {
        holding_is_first(roots, resolved->Some_0, 0);
    }
}

/// A label is refused exactly where it is empty or holds one of the two separators.
pub proof fn a_label_is_refused_for_its_separators(label: Seq<char>)
    ensures
        label_problem(label) is None <==> label.len() > 0 && !label.contains(':')
            && !label.contains('='),
{
}

proof fn pairs_fail_where_a_piece_is_none(spec: Seq<char>, list: Seq<Seq<char>>)
    ensures
        pairs_of(spec, list) is Ok <==> forall|i: int|
            0 <= i < list.len() ==> (#[trigger] list[i]).contains('='),
    decreases list.len(),
{
    if list.len() > 0 {
        let rest = list.drop_last();
        let n = list.len() - 1;
        let entry = list.last();
        pairs_fail_where_a_piece_is_none(spec, rest);
        first_bounds(entry, '=');
        assert(entry.contains('=') <==> first(entry, '=') < entry.len()) by {
            if first(entry, '=') < entry.len() {
                assert(entry[first(entry, '=') as int] == '=');
            }
        }
        if pairs_of(spec, list) is Ok {
            assert forall|i: int| 0 <= i < list.len() implies (#[trigger] list[i]).contains(
                '=',
            ) by {
                if i < n {
                    assert(rest[i] == list[i]);
                }
            }
        }
        if forall|i: int| 0 <= i < list.len() ==> (#[trigger] list[i]).contains('=') {
            assert(list[n].contains('='));
            assert forall|i: int| 0 <= i < rest.len() implies (#[trigger] rest[i]).contains(
                '=',
            ) by {
                assert(rest[i] == list[i]);
            }
        }
    }
}

/// A specification is refused for its form exactly where it is empty or one of its pieces
/// between colons has no equals sign: a piece is never skipped.
pub proof fn a_piece_is_never_skipped(spec: Seq<char>)
    ensures
        entries_of(spec) is Ok <==> spec.len() > 0 && forall|i: int|
            0 <= i < pieces(spec, seq![':']).len() ==> (#[trigger] pieces(
                spec,
                seq![':'],
            )[i]).contains('='),
{
    pairs_fail_where_a_piece_is_none(spec, pieces(spec, seq![':']));
}

/// State is kept where the environment says, else below what it says of state in general,
/// else below the home directory.
pub proof fn state_is_kept_where_the_environment_says(env: Environment)
    ensures
        env.state matches Some(dir) ==> env.state_path() == dir@,
        env.state is None ==> (env.xdg_state_home matches Some(dir) ==> env.state_path() == below(
            dir@,
            "sloop-memory"@,
        )),
        env.state is None && env.xdg_state_home is None ==> (env.home matches Some(dir)
            ==> env.state_path() == below(below(dir@, ".local/state"@), "sloop-memory"@)),
        env.has_state_dir() <==> env.state is Some || env.xdg_state_home is Some || env.home is Some,
{
}

proof fn an_early_problem_stays(entries: Seq<EntryView>, probes: Seq<PathProbe>, n: int)
    requires
        0 <= n <= entries.len(),
        roots_named(entries.take(n), probes) is Err,
    ensures
        roots_named(entries, probes) == roots_named(entries.take(n), probes),
    decreases entries.len(),
{
    if n == entries.len() {
        assert(entries.take(n) =~= entries);
    } else {
        assert(entries.drop_last().take(n) =~= entries.take(n));
        an_early_problem_stays(entries.drop_last(), probes, n);
    }
}

/// The first problem is the one reported: where the entries before one are good, a bad
/// label there is what is wrong, and else a bad path, whatever follows.
pub proof fn the_first_problem_is_reported(
    entries: Seq<EntryView>,
    probes: Seq<PathProbe>,
    n: int,
)
    requires
        0 <= n < entries.len(),
        roots_named(entries.take(n), probes) is Ok,
    ensures
        ({
            let label = entries[n].label;
            let path = entries[n].path;
            let out = roots_named(entries, probes);
            let good = label.len() > 0 && !label.contains(':') && !label.contains('=');
            &&& label.len() == 0 ==> out == Err::<Seq<RootView>, Problem>(Problem::EmptyLabel)
            &&& label.contains(':') ==> out == Err::<Seq<RootView>, Problem>(
                Problem::ColonInLabel { label },
            )
            &&& label.contains('=') && !label.contains(':') ==> out == Err::<
                Seq<RootView>,
                Problem,
            >(Problem::EqualsInLabel { label })
            &&& good && probes[n] is Missing ==> out == Err::<Seq<RootView>, Problem>(
                Problem::MissingPath { path },
            )
            &&& good && probes[n] is NotADirectory ==> out == Err::<Seq<RootView>, Problem>(
                Problem::NotADirectory { path },
            )
            &&& good && probes[n] is Unresolved ==> out == Err::<Seq<RootView>, Problem>(
                Problem::Unresolved { path },
            )
        }),
{
    let some = entries.take(n + 1);
    assert(some.drop_last() =~= entries.take(n));
    assert(some[n] == entries[n]);
    if roots_named(some, probes) is Err {
        an_early_problem_stays(entries, probes, n + 1);
    }
}

proof fn the_repeated_label_is_the_first(roots: Seq<RootView>, i: int, n: int)
    requires
        0 <= i <= n < roots.len(),
        repeats(roots, n),
        forall|j: int| i <= j < n ==> !#[trigger] repeats(roots, j),
    ensures
        repeated_label(roots, i) == Some(roots[n].label),
    decreases n - i,
{
    if i < n {
        assert(!repeats(roots, i));
        the_repeated_label_is_the_first(roots, i + 1, n);
    }
}

/// Good entries with a label twice are refused for the first label that came before.
pub proof fn a_label_twice_is_refused(
    spec: Seq<char>,
    probes: Seq<PathProbe>,
    roots: Seq<RootView>,
    m: int,
    n: int,
)
    requires
        entries_of(spec) matches Ok(entries) && roots_named(entries, probes) == Ok::<
            Seq<RootView>,
            Problem,
        >(roots),
        0 <= m < n < roots.len(),
        roots[m].label == roots[n].label,
        forall|j: int, k: int|
            0 <= j < k < n ==> (#[trigger] roots[j]).label != (#[trigger] roots[k]).label,
    ensures
        roots_of(spec, probes) == Err::<Seq<RootView>, Problem>(
            Problem::DuplicateLabel { label: roots[n].label },
        ),
{
    assert(repeats(roots, n));
    the_repeated_label_is_the_first(roots, 0, n);
}

} // verus!
