use vstd::prelude::*;

use vstd::utf8::encode_utf8;

use crate::path::path_components;
use crate::search::{is_match_of, match_views, reports_matches, MatchView, SearchMatch};
use crate::walk::{
    bytes_lt, lemma_bytes_lt_irreflexive, lemma_step_order, lemma_step_valid, listed_before, plans_directory, DirEntryInfo, Step,
};

verus! {

/// The views of each step's matches.
pub open spec fn parts_views(parts: Seq<Vec<SearchMatch>>) -> Seq<Seq<MatchView>> {
    parts.map_values(|part: Vec<SearchMatch>| match_views(part@))
}

/// The sequences of `parts` one after the other.
pub open spec fn flatten(parts: Seq<Seq<MatchView>>) -> Seq<MatchView>
    decreases parts.len(),
{
    if parts.len() == 0 {
        Seq::empty()
    } else {
        flatten(parts.drop_last()) + parts.last()
    }
}

/// Joins the matches of a directory's steps, given in the order of its plan:
/// each step's matches, in order, then those of the next step.
pub fn join_matches(parts: Vec<Vec<SearchMatch>>) -> (all: Vec<SearchMatch>)
    ensures
        match_views(all@) == flatten(parts_views(parts@)),
{
    let ghost whole = parts@;
    let mut all: Vec<SearchMatch> = Vec::new();
    assert(parts_views(whole.take(0)) =~= Seq::<Seq<MatchView>>::empty());
    assert(match_views(all@) =~= Seq::<MatchView>::empty());
    for part in it: parts.into_iter()
        invariant
            it.seq() == whole,
            match_views(all@) == flatten(parts_views(whole.take(it.index()))),
    {
        let ghost i = it.index();
        let ghost before = all@;
        let mut part = part;
        let ghost p = part@;
        all.append(&mut part);
        proof {
            assert(parts_views(whole.take(i + 1)).drop_last() =~= parts_views(whole.take(i)));
            assert(parts_views(whole.take(i + 1)).last() == match_views(p));
            assert(match_views(all@) =~= match_views(before) + match_views(p));
        }
    }
    proof {
        assert(whole.take(whole.len() as int) =~= whole);
    }
    all
}

/// The kind of a path component, in the order in which `Path` sorts kinds:
/// the root, then `.`, then `..`, then names.
pub open spec fn component_rank(c: Seq<char>) -> int {
    if c == seq!['/'] {
        0
    } else if c == seq!['.'] {
        1
    } else if c == seq!['.', '.'] {
        2
    } else {
        3
    }
}

/// The order of path components: by kind, and names by the bytes of their
/// UTF-8 encoding.
pub open spec fn component_lt(a: Seq<char>, b: Seq<char>) -> bool {
    ||| component_rank(a) < component_rank(b)
    ||| (component_rank(a) == component_rank(b) && bytes_lt(encode_utf8(a), encode_utf8(b)))
}

/// The order of component sequences: the first differing component decides,
/// and a proper prefix comes first.
pub open spec fn components_lt(a: Seq<Seq<char>>, b: Seq<Seq<char>>) -> bool
    decreases a.len(),
{
    if b.len() == 0 {
        false
    } else if a.len() == 0 {
        true
    } else if a[0] != b[0] {
        component_lt(a[0], b[0])
    } else {
        components_lt(a.drop_first(), b.drop_first())
    }
}

/// The order of paths, as `Path` orders them: by their components.
pub open spec fn path_lt(p: Seq<char>, q: Seq<char>) -> bool {
    components_lt(path_components(p), path_components(q))
}

/// Whether match `m1` is reported before match `m2`: by path, and within one
/// path by line number.
pub open spec fn match_before(m1: MatchView, m2: MatchView) -> bool {
    ||| path_lt(m1.path, m2.path)
    ||| (path_components(m1.path) == path_components(m2.path) && m1.line_number < m2.line_number)
}

/// Whether matches come sorted by path and line number.
pub open spec fn matches_sorted(ms: Seq<MatchView>) -> bool {
    forall|a: int, b: int| 0 <= a < b < ms.len() ==> match_before(#[trigger] ms[a], #[trigger] ms[b])
}

/// Whether path `p` lies in directory `dir`, under the entry whose file name
/// is the bytes `name`: its components are those of `dir`, then that name,
/// then possibly more.
pub open spec fn lies_under(p: Seq<char>, dir: Seq<char>, name: Seq<u8>) -> bool {
    let pc = path_components(p);
    let dc = path_components(dir);
    &&& dc.len() < pc.len()
    &&& pc.subrange(0, dc.len() as int) == dc
    &&& component_rank(pc[dc.len() as int]) == 3
    &&& encode_utf8(pc[dc.len() as int]) == name
}

/// The matches of one file come sorted: they share its path, and their line
/// numbers increase.
pub proof fn lemma_file_matches_sorted(
    found: Seq<MatchView>,
    path: Seq<char>,
    lines: Seq<Seq<char>>,
    needle: Seq<char>,
    case_insensitive: bool,
)
    requires
        reports_matches(found, path, lines, needle, case_insensitive),
    ensures
        matches_sorted(found),
{
    assert forall|a: int, b: int| 0 <= a < b < found.len() implies match_before(
        #[trigger] found[a],
        #[trigger] found[b],
    ) by {
        assert(is_match_of(found[a], path, lines, needle, case_insensitive));
        assert(is_match_of(found[b], path, lines, needle, case_insensitive));
    }
}

proof fn lemma_components_lt_after_prefix(a: Seq<Seq<char>>, b: Seq<Seq<char>>, m: int)
    requires
        0 <= m < a.len(),
        m < b.len(),
        a.subrange(0, m) == b.subrange(0, m),
        a[m] != b[m],
        component_lt(a[m], b[m]),
    ensures
        components_lt(a, b),
    decreases m,
{
    if m > 0 {
        assert(a[0] == a.subrange(0, m)[0]);
        assert(b[0] == b.subrange(0, m)[0]);
        assert(a.drop_first().subrange(0, m - 1) =~= a.subrange(0, m).drop_first());
        assert(b.drop_first().subrange(0, m - 1) =~= b.subrange(0, m).drop_first());
        lemma_components_lt_after_prefix(a.drop_first(), b.drop_first(), m - 1);
    }
}

/// Paths under two entries of one directory are ordered as the entries' names.
proof fn lemma_lies_under_ordered(p: Seq<char>, q: Seq<char>, dir: Seq<char>, n1: Seq<u8>, n2: Seq<u8>)
    requires
        lies_under(p, dir, n1),
        lies_under(q, dir, n2),
        bytes_lt(n1, n2),
    ensures
        path_lt(p, q),
{
    let pc = path_components(p);
    let qc = path_components(q);
    let m = path_components(dir).len() as int;
    lemma_bytes_lt_irreflexive(n1);
    assert(pc[m] != qc[m]);
    lemma_components_lt_after_prefix(pc, qc, m);
}

/// The step whose matches hold position `i` of the joined matches.
spec fn part_of(parts: Seq<Seq<MatchView>>, i: int) -> int
    decreases parts.len(),
{
    if parts.len() == 0 {
        0
    } else if i < flatten(parts.drop_last()).len() {
        part_of(parts.drop_last(), i)
    } else {
        parts.len() - 1
    }
}

proof fn lemma_flatten_sorted(parts: Seq<Seq<MatchView>>, dir: Seq<char>, names: Seq<Seq<u8>>)
    requires
        names.len() == parts.len(),
        forall|k1: int, k2: int| 0 <= k1 < k2 < names.len() ==> bytes_lt(#[trigger] names[k1], #[trigger] names[k2]),
        forall|k: int| 0 <= k < parts.len() ==> matches_sorted(#[trigger] parts[k]),
        forall|k: int, t: int|
            0 <= k < parts.len() && 0 <= t < parts[k].len() ==> lies_under(#[trigger] parts[k][t].path, dir, names[k]),
    ensures
        matches_sorted(flatten(parts)),
        forall|i: int|
            0 <= i < flatten(parts).len() ==> 0 <= #[trigger] part_of(parts, i) < parts.len() && lies_under(
                flatten(parts)[i].path,
                dir,
                names[part_of(parts, i)],
            ),
    decreases parts.len(),
{
    if parts.len() > 0 {
        let pre = parts.drop_last();
        let pn = names.drop_last();
        let last = parts.last();
        let kl = parts.len() - 1;
        assert forall|k1: int, k2: int| 0 <= k1 < k2 < pn.len() implies bytes_lt(#[trigger] pn[k1], #[trigger] pn[k2]) by {
            assert(pn[k1] == names[k1] && pn[k2] == names[k2]);
        }
        assert forall|k: int| 0 <= k < pre.len() implies matches_sorted(#[trigger] pre[k]) by {
            assert(pre[k] == parts[k]);
        }
        assert forall|k: int, t: int|
            0 <= k < pre.len() && 0 <= t < pre[k].len() implies lies_under(#[trigger] pre[k][t].path, dir, pn[k]) by {
            assert(pre[k] == parts[k]);
        }
        lemma_flatten_sorted(pre, dir, pn);
        let fp = flatten(pre);
        let f = flatten(parts);
        assert(f == fp + last);
        assert(matches_sorted(last)) by {
            assert(last == parts[kl]);
        }
        assert forall|a: int, b: int| 0 <= a < b < f.len() implies match_before(#[trigger] f[a], #[trigger] f[b]) by {
            if b < fp.len() {
                assert(f[a] == fp[a] && f[b] == fp[b]);
            } else if a >= fp.len() {
                assert(f[a] == last[a - fp.len()] && f[b] == last[b - fp.len()]);
            } else {
                assert(f[a] == fp[a]);
                assert(f[b] == parts[kl][b - fp.len()]);
                let k = part_of(pre, a);
                assert(lies_under(fp[a].path, dir, pn[k]));
                assert(lies_under(parts[kl][b - fp.len()].path, dir, names[kl]));
                assert(bytes_lt(names[k], names[kl]));
                lemma_lies_under_ordered(f[a].path, f[b].path, dir, names[k], names[kl]);
            }
        }
        assert forall|i: int| 0 <= i < f.len() implies 0 <= #[trigger] part_of(parts, i) < parts.len() && lies_under(
            f[i].path,
            dir,
            names[part_of(parts, i)],
        ) by {
            if i < fp.len() {
                assert(f[i] == fp[i]);
                assert(part_of(parts, i) == part_of(pre, i));
                assert(lies_under(fp[i].path, dir, pn[part_of(pre, i)]));
            } else {
                assert(f[i] == parts[kl][i - fp.len()]);
            }
        }
    }
}

/// A directory's matches come sorted by path and line number: the matches
/// that `join_matches` joins in the order of the directory's plan are sorted
/// when each step's matches are sorted and lie under that step's entry, and
/// the directory's entries have different names.
pub proof fn lemma_joined_matches_sorted(
    entries: Seq<DirEntryInfo>,
    recursive: bool,
    steps: Seq<Step>,
    dir: Seq<char>,
    parts: Seq<Seq<MatchView>>,
)
    requires
        plans_directory(entries, recursive, steps),
        parts.len() == steps.len(),
        forall|i: int, j: int|
            0 <= i < j < entries.len() ==> #[trigger] entries[i].name@ != #[trigger] entries[j].name@,
        forall|k: int| 0 <= k < parts.len() ==> matches_sorted(#[trigger] parts[k]),
        forall|k: int, t: int|
            0 <= k < parts.len() && 0 <= t < parts[k].len() ==> lies_under(
                #[trigger] parts[k][t].path,
                dir,
                entries[steps[k].index as int].name@,
            ),
    ensures
        matches_sorted(flatten(parts)),
{
    let names = steps.map_values(|s: Step| entries[s.index as int].name@);
    assert forall|k1: int, k2: int| 0 <= k1 < k2 < names.len() implies bytes_lt(
        #[trigger] names[k1],
        #[trigger] names[k2],
    ) by {
        lemma_step_valid(entries, recursive, steps, entries.len() as int, k1);
        lemma_step_valid(entries, recursive, steps, entries.len() as int, k2);
        let i = steps[k1].index as int;
        let j = steps[k2].index as int;
        lemma_step_order(entries, steps, k1, k2);
        reveal(listed_before);
        if i != j {
            if i < j {
                assert(entries[i].name@ != entries[j].name@);
            } else {
                assert(entries[j].name@ != entries[i].name@);
            }
        } else {
            lemma_bytes_lt_irreflexive(entries[i].name@);
        }
    }
    assert forall|k: int, t: int|
        0 <= k < parts.len() && 0 <= t < parts[k].len() implies lies_under(#[trigger] parts[k][t].path, dir, names[k]) by {
    }
    lemma_flatten_sorted(parts, dir, names);
}

/// Joining one step's matches gives exactly those matches.
pub proof fn lemma_flatten_single(part: Seq<MatchView>)
    ensures
        flatten(seq![part]) == part,
{
    assert(seq![part].drop_last() =~= Seq::<Seq<MatchView>>::empty());
    assert(flatten(Seq::<Seq<MatchView>>::empty()) + part =~= part);
}

/// Joining the steps of two lists one after the other is joining each list
/// and putting the results one after the other.
pub proof fn lemma_flatten_append(a: Seq<Seq<MatchView>>, b: Seq<Seq<MatchView>>)
    ensures
        flatten(a + b) == flatten(a) + flatten(b),
    decreases b.len(),
{
    if b.len() == 0 {
        assert(a + b =~= a);
        assert(flatten(a) + flatten(b) =~= flatten(a));
    } else {
        assert((a + b).drop_last() =~= a + b.drop_last());
        assert((a + b).last() == b.last());
        lemma_flatten_append(a, b.drop_last());
        assert(flatten(a) + flatten(b) =~= flatten(a) + flatten(b.drop_last()) + b.last());
    }
}

/// The sum of the lengths of the steps' matches.
pub open spec fn total_len(parts: Seq<Seq<MatchView>>) -> nat
    decreases parts.len(),
{
    if parts.len() == 0 {
        0
    } else {
        total_len(parts.drop_last()) + parts.last().len()
    }
}

/// Joining loses no match and adds none: the result is as long as all the
/// steps' matches together, and every match of every step is in it.
pub proof fn lemma_flatten_keeps_every_match(parts: Seq<Seq<MatchView>>)
    ensures
        flatten(parts).len() == total_len(parts),
        forall|k: int, t: int|
            0 <= k < parts.len() && 0 <= t < parts[k].len() ==> flatten(parts).contains(#[trigger] parts[k][t]),
    decreases parts.len(),
{
    if parts.len() > 0 {
        let pre = parts.drop_last();
        lemma_flatten_keeps_every_match(pre);
        let f = flatten(parts);
        let fp = flatten(pre);
        assert(f == fp + parts.last());
        assert forall|k: int, t: int|
            0 <= k < parts.len() && 0 <= t < parts[k].len() implies f.contains(#[trigger] parts[k][t]) by {
            if k < pre.len() {
                assert(pre[k] == parts[k]);
                assert(fp.contains(pre[k][t]));
                let i = choose|i: int| 0 <= i < fp.len() && fp[i] == pre[k][t];
                assert(f[i] == fp[i]);
            } else {
                assert(f[fp.len() + t] == parts[k][t]);
            }
        }
    }
}

} // verus!
