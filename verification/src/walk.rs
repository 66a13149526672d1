use vstd::prelude::*;

use crate::search::SearchOptions;

verus! {

/// What a path names, as its metadata tells.
#[derive(Debug, Clone, Copy, PartialEq, Eq, Structural)]
pub enum EntryKind {
    File,
    Directory,
    /// Anything else, such as a symbolic link seen without following it.
    Other,
}

/// What to do with a path: search the lines of a file, or the entries of a directory.
#[derive(Debug, Clone, Copy, PartialEq, Eq, Structural)]
pub enum Action {
    SearchFile,
    SearchDirectory,
}

/// Why a search cannot start.
#[derive(Debug, Clone, Copy, PartialEq, Eq, Structural)]
pub enum SearchError {
    /// The path names neither a file nor a directory.
    NotFileOrDirectory,
}

impl SearchError {
    /// The message that describes the error.
    pub fn message(&self) -> (m: &'static str)
        ensures
            m@ == "Path is neither a file nor a directory"@,
    {
        match self {
            SearchError::NotFileOrDirectory => "Path is neither a file nor a directory",
        }
    }
}

/// One entry of a directory: its file name, as bytes, and its kind.
#[derive(Debug)]
pub struct DirEntryInfo {
    pub name: Vec<u8>,
    pub kind: EntryKind,
}

/// A step of a directory search: the entry at `index` of the listing, and what to do with it.
#[derive(Debug, Clone, Copy, PartialEq, Eq, Structural)]
pub struct Step {
    pub index: usize,
    pub action: Action,
}

/// What a search started at a path of the given kind does first.
pub open spec fn root_action_spec(kind: EntryKind) -> Result<Action, SearchError> {
    match kind {
        EntryKind::File => Ok(Action::SearchFile),
        EntryKind::Directory => Ok(Action::SearchDirectory),
        EntryKind::Other => Err(SearchError::NotFileOrDirectory),
    }
}

/// Decides how a search starts at a path of the given kind: a file is searched
/// line by line, a directory entry by entry, and anything else is refused.
pub fn root_action(kind: EntryKind) -> (r: Result<Action, SearchError>)
    ensures
        r == root_action_spec(kind),
{
    match kind {
        EntryKind::File => Ok(Action::SearchFile),
        EntryKind::Directory => Ok(Action::SearchDirectory),
        EntryKind::Other => Err(SearchError::NotFileOrDirectory),
    }
}

/// The order of byte strings that `Ord` gives `[u8]`, and so file names on
/// Unix: the first differing byte decides, and a proper prefix comes first.
pub open spec fn bytes_lt(a: Seq<u8>, b: Seq<u8>) -> bool
    decreases a.len(),
{
    if b.len() == 0 {
        false
    } else if a.len() == 0 {
        true
    } else if a[0] != b[0] {
        a[0] < b[0]
    } else {
        bytes_lt(a.drop_first(), b.drop_first())
    }
}

/// No byte string comes before itself.
pub proof fn lemma_bytes_lt_irreflexive(a: Seq<u8>)
    ensures
        !bytes_lt(a, a),
    decreases a.len(),
{
    if a.len() > 0 {
        lemma_bytes_lt_irreflexive(a.drop_first());
    }
}

/// The order of byte strings is transitive.
pub proof fn lemma_bytes_lt_transitive(a: Seq<u8>, b: Seq<u8>, c: Seq<u8>)
    requires
        bytes_lt(a, b),
        bytes_lt(b, c),
    ensures
        bytes_lt(a, c),
    decreases a.len(),
{
    if a.len() > 0 && b.len() > 0 && c.len() > 0 && a[0] == b[0] && b[0] == c[0] {
        lemma_bytes_lt_transitive(a.drop_first(), b.drop_first(), c.drop_first());
    }
}

/// Of two different byte strings, one comes before the other.
pub proof fn lemma_bytes_lt_total(a: Seq<u8>, b: Seq<u8>)
    requires
        a != b,
    ensures
        bytes_lt(a, b) || bytes_lt(b, a),
    decreases a.len(),
{
    if a.len() == 0 && b.len() == 0 {
        assert(a =~= b);
    }
    if a.len() > 0 && b.len() > 0 && a[0] == b[0] {
        if a.drop_first() == b.drop_first() {
            assert(a =~= seq![a[0]] + a.drop_first());
            assert(b =~= seq![b[0]] + b.drop_first());
        }
        lemma_bytes_lt_total(a.drop_first(), b.drop_first());
    }
}

/// Whether byte string `a` comes before byte string `b`.
pub fn name_lt(a: &Vec<u8>, b: &Vec<u8>) -> (r: bool)
    ensures
        r == bytes_lt(a@, b@),
{
    let mut i: usize = 0;
    assert(a@.skip(0) =~= a@);
    assert(b@.skip(0) =~= b@);
    while i < a.len() && i < b.len() && a[i] == b[i]
        invariant
            i <= a.len(),
            i <= b.len(),
            bytes_lt(a@, b@) == bytes_lt(a@.skip(i as int), b@.skip(i as int)),
        decreases a.len() - i,
    {
        assert(a@.skip(i as int).drop_first() =~= a@.skip(i + 1));
        assert(b@.skip(i as int).drop_first() =~= b@.skip(i + 1));
        i += 1;
    }
    if i == b.len() {
        false
    } else if i == a.len() {
        true
    } else {
        a[i] < b[i]
    }
}

/// Whether an entry of the given kind is searched: files always, and
/// directories when the search is recursive.
pub open spec fn selected(kind: EntryKind, recursive: bool) -> bool {
    kind == EntryKind::File || (kind == EntryKind::Directory && recursive)
}

/// What is done with a selected entry of the given kind.
pub open spec fn entry_action(kind: EntryKind) -> Action {
    if kind == EntryKind::Directory {
        Action::SearchDirectory
    } else {
        Action::SearchFile
    }
}

/// Whether entry `i` of a listing is visited before entry `j`: by file name,
/// and, for equal names, in the order of the listing.
#[verifier::opaque]
pub open spec fn listed_before(entries: Seq<DirEntryInfo>, i: int, j: int) -> bool {
    ||| bytes_lt(entries[i].name@, entries[j].name@)
    ||| (entries[i].name@ == entries[j].name@ && i < j)
}

/// Each step names an entry before `n` that is selected, with that entry's action.
#[verifier::opaque]
pub open spec fn steps_valid(entries: Seq<DirEntryInfo>, recursive: bool, steps: Seq<Step>, n: int) -> bool {
    forall|k: int|
        #![trigger steps[k]]
        0 <= k < steps.len() ==> {
            &&& steps[k].index < n
            &&& selected(entries[steps[k].index as int].kind, recursive)
            &&& steps[k].action == entry_action(entries[steps[k].index as int].kind)
        }
}

/// The steps come in the order of `listed_before`.
#[verifier::opaque]
pub open spec fn steps_ordered(entries: Seq<DirEntryInfo>, steps: Seq<Step>) -> bool {
    forall|a: int, b: int|
        0 <= a < b < steps.len() ==> listed_before(
            entries,
            #[trigger] steps[a].index as int,
            #[trigger] steps[b].index as int,
        )
}

/// Every selected entry before `n` has a step.
#[verifier::opaque]
pub open spec fn steps_cover(entries: Seq<DirEntryInfo>, recursive: bool, steps: Seq<Step>, n: int) -> bool {
    forall|j: int|
        0 <= j < n && selected(#[trigger] entries[j].kind, recursive) ==> exists|k: int|
            0 <= k < steps.len() && #[trigger] steps[k].index == j
}

/// The plan for the first `n` entries of a listing: what `plans_directory`
/// states, for the entries before `n`.
pub open spec fn plans_prefix(entries: Seq<DirEntryInfo>, recursive: bool, steps: Seq<Step>, n: int) -> bool {
    &&& steps_valid(entries, recursive, steps, n)
    &&& steps_ordered(entries, steps)
    &&& steps_cover(entries, recursive, steps, n)
}

/// Whether `steps` is the plan for searching a directory with the listing
/// `entries`: every selected entry once, with its action, in name order.
pub open spec fn plans_directory(entries: Seq<DirEntryInfo>, recursive: bool, steps: Seq<Step>) -> bool {
    plans_prefix(entries, recursive, steps, entries.len() as int)
}

/// Step `k` of a plan names a selected entry before `n`, with that entry's action.
pub proof fn lemma_step_valid(entries: Seq<DirEntryInfo>, recursive: bool, steps: Seq<Step>, n: int, k: int)
    requires
        steps_valid(entries, recursive, steps, n),
        0 <= k < steps.len(),
    ensures
        steps[k].index < n,
        selected(entries[steps[k].index as int].kind, recursive),
        steps[k].action == entry_action(entries[steps[k].index as int].kind),
{
    reveal(steps_valid);
}

/// An earlier step of a plan names an entry that is visited earlier.
pub proof fn lemma_step_order(entries: Seq<DirEntryInfo>, steps: Seq<Step>, a: int, b: int)
    requires
        steps_ordered(entries, steps),
        0 <= a < b < steps.len(),
    ensures
        listed_before(entries, steps[a].index as int, steps[b].index as int),
{
    reveal(steps_ordered);
}

/// The position of the step of selected entry `j` in a plan.
pub proof fn lemma_step_of(entries: Seq<DirEntryInfo>, recursive: bool, steps: Seq<Step>, n: int, j: int) -> (k: int)
    requires
        steps_cover(entries, recursive, steps, n),
        0 <= j < n,
        selected(entries[j].kind, recursive),
    ensures
        0 <= k < steps.len(),
        steps[k].index == j,
{
    reveal(steps_cover);
    choose|k: int| 0 <= k < steps.len() && #[trigger] steps[k].index == j
}

/// The indices of a plan for the first `n` entries are below `n`.
proof fn lemma_prefix_indices(entries: Seq<DirEntryInfo>, recursive: bool, steps: Seq<Step>, n: int)
    requires
        plans_prefix(entries, recursive, steps, n),
    ensures
        forall|k: int| #![trigger steps[k]] 0 <= k < steps.len() ==> steps[k].index < n,
{
    reveal(steps_valid);
}

/// The empty plan is the plan for no entries.
proof fn lemma_prefix_empty(entries: Seq<DirEntryInfo>, recursive: bool)
    ensures
        plans_prefix(entries, recursive, Seq::<Step>::empty(), 0),
{
    reveal(steps_valid);
    reveal(steps_ordered);
    reveal(steps_cover);
}

/// An entry that is not selected leaves the plan as it is.
proof fn lemma_skip_entry(entries: Seq<DirEntryInfo>, recursive: bool, steps: Seq<Step>, i: int)
    requires
        0 <= i < entries.len(),
        !selected(entries[i].kind, recursive),
        plans_prefix(entries, recursive, steps, i),
    ensures
        plans_prefix(entries, recursive, steps, i + 1),
{
    reveal(steps_valid);
    reveal(steps_cover);
}

/// Entry `i` placed at position `p` comes after the steps before `p` and
/// before those after it.
proof fn lemma_insert_order(entries: Seq<DirEntryInfo>, old_steps: Seq<Step>, p: int, i: int, step: Step)
    requires
        0 <= i < entries.len(),
        0 <= p <= old_steps.len(),
        step.index == i,
        forall|k: int| #![trigger old_steps[k]] 0 <= k < old_steps.len() ==> old_steps[k].index < i,
        forall|a: int, b: int|
            0 <= a < b < old_steps.len() ==> listed_before(
                entries,
                #[trigger] old_steps[a].index as int,
                #[trigger] old_steps[b].index as int,
            ),
        forall|q: int|
            0 <= q < p ==> !bytes_lt(entries[i].name@, entries[#[trigger] old_steps[q].index as int].name@),
        p < old_steps.len() ==> bytes_lt(entries[i].name@, entries[old_steps[p].index as int].name@),
    ensures
        forall|a: int, b: int|
            0 <= a < b < old_steps.len() + 1 ==> listed_before(
                entries,
                #[trigger] old_steps.insert(p, step)[a].index as int,
                #[trigger] old_steps.insert(p, step)[b].index as int,
            ),
{
    reveal(listed_before);
    let steps = old_steps.insert(p, step);
    old_steps.insert_ensures(p, step);
    let n = entries[i].name@;
    assert forall|a: int, b: int|
        0 <= a < b < steps.len() implies listed_before(
            entries,
            #[trigger] steps[a].index as int,
            #[trigger] steps[b].index as int,
        ) by {
        if b < p {
            assert(steps[a] == old_steps[a]);
            assert(steps[b] == old_steps[b]);
        } else if a > p {
            assert(steps[a] == old_steps[a - 1]);
            assert(steps[b] == old_steps[b - 1]);
        } else if b == p {
            let x = old_steps[a].index as int;
            assert(steps[a] == old_steps[a]);
            assert(!bytes_lt(n, entries[x].name@));
            if entries[x].name@ != n {
                lemma_bytes_lt_total(entries[x].name@, n);
            }
        } else if a < p {
            assert(steps[a] == old_steps[a]);
            assert(steps[b] == old_steps[b - 1]);
        } else {
            let y = old_steps[b - 1].index as int;
            let z = old_steps[p].index as int;
            assert(steps[b] == old_steps[b - 1]);
            if b - 1 > p {
                assert(listed_before(entries, z, y));
                if bytes_lt(entries[z].name@, entries[y].name@) {
                    lemma_bytes_lt_transitive(n, entries[z].name@, entries[y].name@);
                }
            }
        }
    }
}

/// Inserting a step for selected entry `i` keeps every step valid.
proof fn lemma_insert_valid(
    entries: Seq<DirEntryInfo>,
    recursive: bool,
    old_steps: Seq<Step>,
    p: int,
    i: usize,
    step: Step,
)
    requires
        i < entries.len(),
        0 <= p <= old_steps.len(),
        selected(entries[i as int].kind, recursive),
        step == (Step { index: i, action: entry_action(entries[i as int].kind) }),
        steps_valid(entries, recursive, old_steps, i as int),
    ensures
        steps_valid(entries, recursive, old_steps.insert(p, step), i + 1),
{
    reveal(steps_valid);
    let steps = old_steps.insert(p, step);
    old_steps.insert_ensures(p, step);
    assert forall|k: int|
        #![trigger steps[k]]
        0 <= k < steps.len() implies {
            &&& steps[k].index < i + 1
            &&& selected(entries[steps[k].index as int].kind, recursive)
            &&& steps[k].action == entry_action(entries[steps[k].index as int].kind)
        } by {
        if k < p {
            assert(steps[k] == old_steps[k]);
        } else if k > p {
            assert(steps[k] == old_steps[k - 1]);
        }
    }
}

/// Inserting a step for entry `i` covers the entries up to `i`.
proof fn lemma_insert_cover(
    entries: Seq<DirEntryInfo>,
    recursive: bool,
    old_steps: Seq<Step>,
    p: int,
    i: usize,
    step: Step,
)
    requires
        i < entries.len(),
        0 <= p <= old_steps.len(),
        step.index == i,
        steps_cover(entries, recursive, old_steps, i as int),
    ensures
        steps_cover(entries, recursive, old_steps.insert(p, step), i + 1),
{
    reveal(steps_cover);
    let steps = old_steps.insert(p, step);
    old_steps.insert_ensures(p, step);
    assert forall|j: int|
        0 <= j < i + 1 && selected(#[trigger] entries[j].kind, recursive) implies exists|k: int|
            0 <= k < steps.len() && #[trigger] steps[k].index == j by {
        if j < i {
            let k = choose|k: int| 0 <= k < old_steps.len() && #[trigger] old_steps[k].index == j;
            if k < p {
                assert(steps[k] == old_steps[k]);
            } else {
                assert(steps[k + 1] == old_steps[k]);
            }
        } else {
            assert(steps[p].index == j);
        }
    }
}

/// Inserting entry `i` at the first position whose entry has a greater name
/// extends the plan for the entries before `i` to the plan for those up to `i`.
proof fn lemma_insert_step(
    entries: Seq<DirEntryInfo>,
    recursive: bool,
    old_steps: Seq<Step>,
    p: int,
    i: usize,
    step: Step,
)
    requires
        i < entries.len(),
        0 <= p <= old_steps.len(),
        selected(entries[i as int].kind, recursive),
        step == (Step { index: i, action: entry_action(entries[i as int].kind) }),
        plans_prefix(entries, recursive, old_steps, i as int),
        forall|q: int|
            0 <= q < p ==> !bytes_lt(entries[i as int].name@, entries[#[trigger] old_steps[q].index as int].name@),
        p < old_steps.len() ==> bytes_lt(entries[i as int].name@, entries[old_steps[p].index as int].name@),
    ensures
        plans_prefix(entries, recursive, old_steps.insert(p, step), i + 1),
{
    lemma_insert_valid(entries, recursive, old_steps, p, i, step);
    lemma_insert_cover(entries, recursive, old_steps, p, i, step);
    lemma_prefix_indices(entries, recursive, old_steps, i as int);
    assert(steps_ordered(entries, old_steps.insert(p, step))) by {
        reveal(steps_ordered);
        lemma_insert_order(entries, old_steps, p, i as int, step);
    }
}

/// Plans the search of a directory whose listing is `entries`: its files,
/// and its subdirectories when the search is recursive, sorted by name.
pub fn plan_directory(entries: &Vec<DirEntryInfo>, options: SearchOptions) -> (steps: Vec<Step>)
    ensures
        plans_directory(entries@, options.recursive, steps@),
{
    let recursive = options.recursive;
    let mut steps: Vec<Step> = Vec::new();
    proof {
        lemma_prefix_empty(entries@, recursive);
    }
    for i in 0..entries.len()
        invariant
            recursive == options.recursive,
            plans_prefix(entries@, recursive, steps@, i as int),
    {
        let kind = entries[i].kind;
        let wanted = match kind {
            EntryKind::File => true,
            EntryKind::Directory => recursive,
            EntryKind::Other => false,
        };
        if wanted {
            let action = match kind {
                EntryKind::Directory => Action::SearchDirectory,
                _ => Action::SearchFile,
            };
            proof {
                lemma_prefix_indices(entries@, recursive, steps@, i as int);
            }
            let mut p: usize = 0;
            while p < steps.len() && !name_lt(&entries[i].name, &entries[steps[p].index].name)
                invariant
                    i < entries.len(),
                    p <= steps.len(),
                    plans_prefix(entries@, recursive, steps@, i as int),
                    forall|k: int| #![trigger steps@[k]] 0 <= k < steps.len() ==> steps@[k].index < i,
                    forall|q: int|
                        0 <= q < p ==> !bytes_lt(
                            entries@[i as int].name@,
                            entries@[#[trigger] steps@[q].index as int].name@,
                        ),
                decreases steps.len() - p,
            {
                p += 1;
            }
            let step = Step { index: i, action };
            proof {
                lemma_insert_step(entries@, recursive, steps@, p as int, i, step);
            }
            steps.insert(p, step);
        } else {
            proof {
                lemma_skip_entry(entries@, recursive, steps@, i as int);
            }
        }
    }
    steps
}

/// Of two different entries of a listing, exactly one is visited first.
pub proof fn lemma_listed_before_strict_total(entries: Seq<DirEntryInfo>, i: int, j: int)
    ensures
        !(listed_before(entries, i, j) && listed_before(entries, j, i)),
        i != j ==> listed_before(entries, i, j) || listed_before(entries, j, i),
{
    reveal(listed_before);
    let a = entries[i].name@;
    let b = entries[j].name@;
    lemma_bytes_lt_irreflexive(a);
    if bytes_lt(a, b) && bytes_lt(b, a) {
        lemma_bytes_lt_transitive(a, b, a);
    }
    if a != b {
        lemma_bytes_lt_total(a, b);
    }
}

proof fn lemma_plan_indices_agree(
    entries: Seq<DirEntryInfo>,
    recursive: bool,
    s1: Seq<Step>,
    s2: Seq<Step>,
    k: int,
)
    requires
        plans_directory(entries, recursive, s1),
        plans_directory(entries, recursive, s2),
        0 <= k < s1.len(),
        k < s2.len(),
    ensures
        forall|j: int| 0 <= j <= k ==> #[trigger] s1[j].index == s2[j].index,
    decreases k,
{
    if k > 0 {
        lemma_plan_indices_agree(entries, recursive, s1, s2, k - 1);
    }
    let n = entries.len() as int;
    let x = s1[k].index as int;
    let y = s2[k].index as int;
    if x != y {
        lemma_listed_before_strict_total(entries, x, y);
        lemma_step_valid(entries, recursive, s1, n, k);
        lemma_step_valid(entries, recursive, s2, n, k);
        if listed_before(entries, x, y) {
            let k2 = lemma_step_of(entries, recursive, s2, n, x);
            if k2 < k {
                lemma_step_order(entries, s1, k2, k);
                lemma_listed_before_strict_total(entries, x, x);
            } else if k2 > k {
                lemma_step_order(entries, s2, k, k2);
            }
        } else {
            let k1 = lemma_step_of(entries, recursive, s1, n, y);
            if k1 < k {
                lemma_step_order(entries, s2, k1, k);
                lemma_listed_before_strict_total(entries, y, y);
            } else if k1 > k {
                lemma_step_order(entries, s1, k, k1);
            }
        }
    }
}

proof fn lemma_plan_not_longer(entries: Seq<DirEntryInfo>, recursive: bool, s1: Seq<Step>, s2: Seq<Step>)
    requires
        plans_directory(entries, recursive, s1),
        plans_directory(entries, recursive, s2),
    ensures
        s1.len() <= s2.len(),
{
    if s1.len() > s2.len() {
        let n = entries.len() as int;
        let k = s2.len() as int;
        let x = s1[k].index as int;
        lemma_step_valid(entries, recursive, s1, n, k);
        let k2 = lemma_step_of(entries, recursive, s2, n, x);
        lemma_plan_indices_agree(entries, recursive, s1, s2, k2);
        assert(s1[k2].index == s2[k2].index);
        lemma_step_order(entries, s1, k2, k);
        lemma_listed_before_strict_total(entries, x, x);
    }
}

/// The plan of a directory is determined by its listing and the options:
/// two plans of the same listing are equal.
pub proof fn lemma_plan_unique(entries: Seq<DirEntryInfo>, recursive: bool, s1: Seq<Step>, s2: Seq<Step>)
    requires
        plans_directory(entries, recursive, s1),
        plans_directory(entries, recursive, s2),
    ensures
        s1 == s2,
{
    lemma_plan_not_longer(entries, recursive, s1, s2);
    lemma_plan_not_longer(entries, recursive, s2, s1);
    if s1.len() > 0 {
        lemma_plan_indices_agree(entries, recursive, s1, s2, s1.len() - 1);
    }
    assert forall|k: int| 0 <= k < s1.len() implies s1[k] == s2[k] by {
        assert(s1[k].index == s2[k].index);
        lemma_step_valid(entries, recursive, s1, entries.len() as int, k);
        lemma_step_valid(entries, recursive, s2, entries.len() as int, k);
    }
    assert(s1 =~= s2);
}

/// The steps of a plan that search files, in order.
pub open spec fn file_steps(steps: Seq<Step>) -> Seq<Step>
    decreases steps.len(),
{
    if steps.len() == 0 {
        steps
    } else if steps.last().action == Action::SearchFile {
        file_steps(steps.drop_last()).push(steps.last())
    } else {
        file_steps(steps.drop_last())
    }
}

proof fn lemma_file_steps_members(steps: Seq<Step>)
    ensures
        forall|k: int|
            0 <= k < file_steps(steps).len() ==> steps.contains(#[trigger] file_steps(steps)[k])
                && file_steps(steps)[k].action == Action::SearchFile,
        forall|j: int|
            0 <= j < steps.len() && (#[trigger] steps[j]).action == Action::SearchFile ==> file_steps(
                steps,
            ).contains(steps[j]),
    decreases steps.len(),
{
    if steps.len() > 0 {
        let prev = steps.drop_last();
        lemma_file_steps_members(prev);
        let fs = file_steps(steps);
        assert forall|k: int| 0 <= k < fs.len() implies steps.contains(#[trigger] fs[k])
            && fs[k].action == Action::SearchFile by {
            if k < file_steps(prev).len() {
                assert(fs[k] == file_steps(prev)[k]);
                let j = choose|j: int| 0 <= j < prev.len() && prev[j] == fs[k];
                assert(steps[j] == prev[j]);
            } else {
                assert(fs[k] == steps.last());
                assert(steps[steps.len() - 1] == steps.last());
            }
        }
        assert forall|j: int|
            0 <= j < steps.len() && (#[trigger] steps[j]).action == Action::SearchFile implies fs.contains(steps[j]) by {
            if j < prev.len() {
                assert(prev[j] == steps[j]);
                assert(file_steps(prev).contains(prev[j]));
                let k = choose|k: int| 0 <= k < file_steps(prev).len() && file_steps(prev)[k] == prev[j];
                assert(fs[k] == file_steps(prev)[k]);
            } else {
                assert(fs[fs.len() - 1] == steps[j]);
            }
        }
    }
}

proof fn lemma_file_steps_ordered(entries: Seq<DirEntryInfo>, steps: Seq<Step>)
    requires
        steps_ordered(entries, steps),
    ensures
        steps_ordered(entries, file_steps(steps)),
    decreases steps.len(),
{
    if steps.len() > 0 {
        let prev = steps.drop_last();
        assert(steps_ordered(entries, prev)) by {
            reveal(steps_ordered);
            assert forall|a: int, b: int| 0 <= a < b < prev.len() implies listed_before(
                entries,
                #[trigger] prev[a].index as int,
                #[trigger] prev[b].index as int,
            ) by {
                assert(prev[a] == steps[a]);
                assert(prev[b] == steps[b]);
            }
        }
        lemma_file_steps_ordered(entries, prev);
        lemma_file_steps_members(prev);
        let fp = file_steps(prev);
        let fs = file_steps(steps);
        if steps.last().action == Action::SearchFile {
            assert forall|a: int| 0 <= a < fp.len() implies listed_before(
                entries,
                #[trigger] fp[a].index as int,
                steps.last().index as int,
            ) by {
                assert(prev.contains(fp[a]));
                let j = choose|j: int| 0 <= j < prev.len() && prev[j] == fp[a];
                lemma_step_order(entries, steps, j, steps.len() - 1);
                assert(steps[j] == prev[j]);
            }
            reveal(steps_ordered);
            assert forall|a: int, b: int| 0 <= a < b < fs.len() implies listed_before(
                entries,
                #[trigger] fs[a].index as int,
                #[trigger] fs[b].index as int,
            ) by {
                assert(fs[a] == fp[a]);
                if b < fp.len() {
                    assert(fs[b] == fp[b]);
                } else {
                    assert(fs[b] == steps.last());
                }
            }
        }
    }
}

/// A search that is not recursive visits the files that a recursive search of
/// the same directory visits, in the same order, and nothing else.
pub proof fn lemma_plan_without_recursion(entries: Seq<DirEntryInfo>, shallow: Seq<Step>, deep: Seq<Step>)
    requires
        plans_directory(entries, false, shallow),
        plans_directory(entries, true, deep),
    ensures
        shallow == file_steps(deep),
{
    let n = entries.len() as int;
    let fs = file_steps(deep);
    lemma_file_steps_members(deep);
    lemma_file_steps_ordered(entries, deep);
    assert(steps_valid(entries, false, fs, n)) by {
        reveal(steps_valid);
        assert forall|k: int|
            #![trigger fs[k]]
            0 <= k < fs.len() implies {
                &&& fs[k].index < n
                &&& selected(entries[fs[k].index as int].kind, false)
                &&& fs[k].action == entry_action(entries[fs[k].index as int].kind)
            } by {
            assert(deep.contains(fs[k]));
            let j = choose|j: int| 0 <= j < deep.len() && deep[j] == fs[k];
            lemma_step_valid(entries, true, deep, n, j);
        }
    }
    assert(steps_cover(entries, false, fs, n)) by {
        reveal(steps_cover);
        assert forall|j: int|
            0 <= j < n && selected(#[trigger] entries[j].kind, false) implies exists|k: int|
                0 <= k < fs.len() && #[trigger] fs[k].index == j by {
            let k = lemma_step_of(entries, true, deep, n, j);
            lemma_step_valid(entries, true, deep, n, k);
            assert(deep[k].action == Action::SearchFile);
            assert(fs.contains(deep[k]));
            let k2 = choose|k2: int| 0 <= k2 < fs.len() && fs[k2] == deep[k];
            assert(fs[k2].index == j);
        }
    }
    lemma_plan_unique(entries, false, shallow, fs);
}

/// Whether `a` comes before `b` in the lexicographic order of byte strings,
/// stated by where they first differ: they agree on the first `k` bytes, and
/// then `a` ends while `b` goes on, or `a`'s byte is the smaller one.
pub open spec fn first_difference_lt(a: Seq<u8>, b: Seq<u8>, k: int) -> bool {
    &&& 0 <= k <= a.len()
    &&& k <= b.len()
    &&& a.subrange(0, k) == b.subrange(0, k)
    &&& ((k == a.len() && k < b.len()) || (k < a.len() && k < b.len() && a[k] < b[k]))
}

/// The name order is the lexicographic order of byte strings: `a` comes
/// before `b` exactly when, at the first position where they differ, `a`'s
/// byte is smaller, or `a` is a proper prefix of `b`.
pub proof fn lemma_bytes_lt_is_lexicographic(a: Seq<u8>, b: Seq<u8>)
    ensures
        bytes_lt(a, b) <==> exists|k: int| #[trigger] first_difference_lt(a, b, k),
    decreases a.len(),
{
    if b.len() == 0 {
        assert forall|k: int| !#[trigger] first_difference_lt(a, b, k) by {}
    } else if a.len() == 0 {
        assert(a.subrange(0, 0) =~= b.subrange(0, 0));
        assert(first_difference_lt(a, b, 0));
    } else if a[0] != b[0] {
        if a[0] < b[0] {
            assert(a.subrange(0, 0) =~= b.subrange(0, 0));
            assert(first_difference_lt(a, b, 0));
        } else {
            assert forall|k: int| !#[trigger] first_difference_lt(a, b, k) by {
                if first_difference_lt(a, b, k) && k > 0 {
                    assert(a.subrange(0, k)[0] == b.subrange(0, k)[0]);
                }
            }
        }
    } else {
        let a1 = a.drop_first();
        let b1 = b.drop_first();
        lemma_bytes_lt_is_lexicographic(a1, b1);
        if bytes_lt(a, b) {
            let k = choose|k: int| #[trigger] first_difference_lt(a1, b1, k);
            assert(a.subrange(0, k + 1) =~= seq![a[0]] + a1.subrange(0, k));
            assert(b.subrange(0, k + 1) =~= seq![b[0]] + b1.subrange(0, k));
            assert(first_difference_lt(a, b, k + 1));
        }
        if exists|k: int| #[trigger] first_difference_lt(a, b, k) {
            let k = choose|k: int| #[trigger] first_difference_lt(a, b, k);
            if k == 0 {
                assert(false);
            }
            assert(a1.subrange(0, k - 1) =~= a.subrange(0, k).drop_first());
            assert(b1.subrange(0, k - 1) =~= b.subrange(0, k).drop_first());
            assert(first_difference_lt(a1, b1, k - 1));
        }
    }
}

/// Single bytes are ordered as numbers.
pub proof fn lemma_bytes_lt_single(x: u8, y: u8)
    ensures
        bytes_lt(seq![x], seq![y]) <==> x < y,
{
    assert(seq![x].drop_first() =~= Seq::<u8>::empty());
    assert(seq![y].drop_first() =~= Seq::<u8>::empty());
    assert(!bytes_lt(Seq::<u8>::empty(), Seq::<u8>::empty()));
}

} // verus!
