use vstd::prelude::*;
use vstd::std_specs::cmp::PartialEqSpecImpl;

use crate::path::{path_components, same_path};
use vstd::utf8::is_ascii_chars;

use crate::text::{
    ascii_lowercase, lowers_as_ascii, chars_of, occurs_at, collect_string, contains, contains_chars, decimal, decimal_chars, lines_of, lowercase,
    split_lines, to_lowercase, views,
};

verus! {

/// What a match is: the file it was found in, its line number (the first line
/// is 1) and the whole line, as read.
pub struct MatchView {
    pub path: Seq<char>,
    pub line_number: nat,
    pub content: Seq<char>,
}

/// A line of a file in which the needle was found.
#[derive(Debug)]
pub struct SearchMatch {
    path: String,
    line_number: usize,
    content: String,
}

impl View for SearchMatch {
    type V = MatchView;

    closed spec fn view(&self) -> MatchView {
        MatchView { path: self.path@, line_number: self.line_number as nat, content: self.content@ }
    }
}

impl SearchMatch {
    /// A match of line `line_number` of the file at `path`, whose text is `content`.
    pub fn new(path: &str, line_number: usize, content: &str) -> (m: Self)
        ensures
            m@ == (MatchView { path: path@, line_number: line_number as nat, content: content@ }),
    {
        SearchMatch { path: path.to_owned(), line_number, content: content.to_owned() }
    }

    /// The file in which the line was found.
    pub fn path(&self) -> (p: &str)
        ensures
            p@ == self@.path,
    {
        self.path.as_str()
    }

    /// The number of the line in its file; the first line is 1.
    pub fn line_number(&self) -> (n: usize)
        ensures
            n == self@.line_number,
    {
        self.line_number
    }

    /// The text of the line, without its line ending.
    pub fn content(&self) -> (c: &str)
        ensures
            c@ == self@.content,
    {
        self.content.as_str()
    }

    /// The match as it is reported: `path:line_number: content`.
    pub fn display_line(&self) -> (s: String)
        ensures
            s@ == self@.path + seq![':'] + decimal(self@.line_number) + seq![':', ' '] + self@.content,
    {
        let mut out = chars_of(self.path.as_str());
        out.push(':');
        let mut number = decimal_chars(self.line_number);
        out.append(&mut number);
        out.push(':');
        out.push(' ');
        let mut text = chars_of(self.content.as_str());
        out.append(&mut text);
        let s = collect_string(&out);
        assert(s@ =~= self@.path + seq![':'] + decimal(self@.line_number) + seq![':', ' '] + self@.content);
        s
    }
}

impl PartialEq for SearchMatch {
    /// Matches are equal when their paths have the same components (as paths
    /// compare) and their line numbers and texts are equal.
    fn eq(&self, other: &Self) -> (r: bool) {
        self.line_number == other.line_number && self.content == other.content && same_path(
            self.path.as_str(),
            other.path.as_str(),
        )
    }
}

impl PartialEqSpecImpl for SearchMatch {
    open spec fn obeys_eq_spec() -> bool {
        true
    }

    open spec fn eq_spec(&self, other: &Self) -> bool {
        &&& path_components(self@.path) == path_components(other@.path)
        &&& self@.line_number == other@.line_number
        &&& self@.content == other@.content
    }
}

impl Eq for SearchMatch {

}

/// How to search: whether case is ignored, and whether a directory's
/// subdirectories are searched too.
#[derive(Debug, Clone, Copy)]
pub struct SearchOptions {
    pub case_insensitive: bool,
    pub recursive: bool,
}

impl SearchOptions {
    /// Options with the given settings.
    pub fn new(case_insensitive: bool, recursive: bool) -> (o: Self)
        ensures
            o.case_insensitive == case_insensitive,
            o.recursive == recursive,
    {
        SearchOptions { case_insensitive, recursive }
    }
}

impl Default for SearchOptions {
    /// Case-sensitive search of a single file or of a directory's own files.
    fn default() -> (o: Self)
        ensures
            !o.case_insensitive,
            !o.recursive,
    {
        SearchOptions { case_insensitive: false, recursive: false }
    }
}

/// Whether `line` is a match for `needle`: it contains the needle, or, when case
/// is ignored, its lower-case form contains the needle's lower-case form.
pub open spec fn line_matches(line: Seq<char>, needle: Seq<char>, case_insensitive: bool) -> bool {
    if case_insensitive {
        contains(lowercase(line), lowercase(needle))
    } else {
        contains(line, needle)
    }
}

/// The matches that searching `lines`, the lines of the file at `path`, for
/// `needle` must give, in any order: exactly one for each matching line.
pub open spec fn is_match_of(
    m: MatchView,
    path: Seq<char>,
    lines: Seq<Seq<char>>,
    needle: Seq<char>,
    case_insensitive: bool,
) -> bool {
    &&& 1 <= m.line_number <= lines.len()
    &&& m.path == path
    &&& m.content == lines[m.line_number - 1]
    &&& line_matches(m.content, needle, case_insensitive)
}

/// The result of searching `lines` for `needle`: for every matching line, in
/// file order, one match that carries `path`, the line's number and its text.
pub open spec fn reports_matches(
    found: Seq<MatchView>,
    path: Seq<char>,
    lines: Seq<Seq<char>>,
    needle: Seq<char>,
    case_insensitive: bool,
) -> bool {
    &&& forall|k: int|
        0 <= k < found.len() ==> is_match_of(#[trigger] found[k], path, lines, needle, case_insensitive)
    &&& forall|a: int, b: int|
        0 <= a < b < found.len() ==> #[trigger] found[a].line_number < #[trigger] found[b].line_number
    &&& forall|i: int|
        0 <= i < lines.len() && line_matches(#[trigger] lines[i], needle, case_insensitive) ==> exists|k: int|
            0 <= k < found.len() && #[trigger] found[k].line_number == i + 1
}

proof fn lemma_line_numbers_agree(
    f1: Seq<MatchView>,
    f2: Seq<MatchView>,
    path: Seq<char>,
    lines: Seq<Seq<char>>,
    needle: Seq<char>,
    case_insensitive: bool,
    k: int,
)
    requires
        reports_matches(f1, path, lines, needle, case_insensitive),
        reports_matches(f2, path, lines, needle, case_insensitive),
        0 <= k < f1.len(),
        k < f2.len(),
    ensures
        forall|j: int| 0 <= j <= k ==> #[trigger] f1[j].line_number == f2[j].line_number,
    decreases k,
{
    if k > 0 {
        lemma_line_numbers_agree(f1, f2, path, lines, needle, case_insensitive, k - 1);
    }
    let a = f1[k].line_number;
    let b = f2[k].line_number;
    assert(is_match_of(f1[k], path, lines, needle, case_insensitive));
    assert(is_match_of(f2[k], path, lines, needle, case_insensitive));
    if a < b {
        assert(line_matches(lines[a - 1], needle, case_insensitive));
        let k2 = choose|k2: int| 0 <= k2 < f2.len() && #[trigger] f2[k2].line_number == (a - 1) + 1;
        if k2 < k {
            assert(f1[k2].line_number < f1[k].line_number);
        } else if k2 > k {
            assert(f2[k].line_number < f2[k2].line_number);
        }
    } else if b < a {
        assert(line_matches(lines[b - 1], needle, case_insensitive));
        let k1 = choose|k1: int| 0 <= k1 < f1.len() && #[trigger] f1[k1].line_number == (b - 1) + 1;
        if k1 < k {
            assert(f2[k1].line_number < f2[k].line_number);
        } else if k1 > k {
            assert(f1[k].line_number < f1[k1].line_number);
        }
    }
}

proof fn lemma_not_longer(
    f1: Seq<MatchView>,
    f2: Seq<MatchView>,
    path: Seq<char>,
    lines: Seq<Seq<char>>,
    needle: Seq<char>,
    case_insensitive: bool,
)
    requires
        reports_matches(f1, path, lines, needle, case_insensitive),
        reports_matches(f2, path, lines, needle, case_insensitive),
    ensures
        f1.len() <= f2.len(),
{
    if f1.len() > f2.len() {
        let k = f2.len() as int;
        let a = f1[k].line_number;
        assert(is_match_of(f1[k], path, lines, needle, case_insensitive));
        assert(line_matches(lines[a - 1], needle, case_insensitive));
        let k2 = choose|k2: int| 0 <= k2 < f2.len() && #[trigger] f2[k2].line_number == (a - 1) + 1;
        lemma_line_numbers_agree(f1, f2, path, lines, needle, case_insensitive, k2);
        assert(f1[k2].line_number == f2[k2].line_number);
        assert(f1[k2].line_number < f1[k].line_number);
    }
}

/// A search's result is determined by what it searched: two results that
/// both report the matches of the same lines for the same needle are equal.
pub proof fn lemma_reports_matches_unique(
    f1: Seq<MatchView>,
    f2: Seq<MatchView>,
    path: Seq<char>,
    lines: Seq<Seq<char>>,
    needle: Seq<char>,
    case_insensitive: bool,
)
    requires
        reports_matches(f1, path, lines, needle, case_insensitive),
        reports_matches(f2, path, lines, needle, case_insensitive),
    ensures
        f1 == f2,
{
    lemma_not_longer(f1, f2, path, lines, needle, case_insensitive);
    lemma_not_longer(f2, f1, path, lines, needle, case_insensitive);
    if f1.len() > 0 {
        lemma_line_numbers_agree(f1, f2, path, lines, needle, case_insensitive, f1.len() - 1);
    }
    assert forall|k: int| 0 <= k < f1.len() implies f1[k] == f2[k] by {
        assert(f1[k].line_number == f2[k].line_number);
        assert(is_match_of(f1[k], path, lines, needle, case_insensitive));
        assert(is_match_of(f2[k], path, lines, needle, case_insensitive));
    }
    assert(f1 =~= f2);
}

/// The views of a sequence of matches.
pub open spec fn match_views(found: Seq<SearchMatch>) -> Seq<MatchView> {
    found.map_values(|m: SearchMatch| m@)
}

/// Whether a line matches, given the needle's characters as the search uses
/// them (lower-cased already when case is ignored).
fn line_is_match(line: &String, needle: &str, key: &Vec<char>, case_insensitive: bool) -> (r: bool)
    requires
        key@ == (if case_insensitive { lowercase(needle@) } else { needle@ }),
    ensures
        r == line_matches(line@, needle@, case_insensitive),
        case_insensitive ==> lowers_as_ascii(line@),
{
    if case_insensitive {
        let lowered = to_lowercase(line.as_str());
        contains_chars(&chars_of(lowered.as_str()), key)
    } else {
        contains_chars(&chars_of(line.as_str()), key)
    }
}

/// What a search of `lines` for `needle` gives: the matches that
/// `reports_matches` describes. When case is ignored the search lowers the
/// needle and every line, and so it also establishes that those of them that
/// are ASCII lower to their ASCII lower case.
pub open spec fn search_result(
    found: Seq<MatchView>,
    path: Seq<char>,
    lines: Seq<Seq<char>>,
    needle: Seq<char>,
    case_insensitive: bool,
) -> bool {
    &&& reports_matches(found, path, lines, needle, case_insensitive)
    &&& case_insensitive ==> lowers_as_ascii(needle)
    &&& case_insensitive ==> forall|i: int| 0 <= i < lines.len() ==> #[trigger] lowers_as_ascii(lines[i])
}

/// Searches the lines of the file at `path` for `needle`.
pub fn search_lines(needle: &str, path: &str, lines: &Vec<String>, options: SearchOptions) -> (found: Vec<SearchMatch>)
    ensures
        search_result(match_views(found@), path@, views(lines@), needle@, options.case_insensitive),
{
    let ci = options.case_insensitive;
    let key_text = if ci {
        to_lowercase(needle)
    } else {
        needle.to_owned()
    };
    let key = chars_of(key_text.as_str());
    let mut found: Vec<SearchMatch> = Vec::new();
    let ghost ls = views(lines@);
    for i in 0..lines.len()
        invariant
            ls == views(lines@),
            key@ == (if ci { lowercase(needle@) } else { needle@ }),
            ci ==> lowers_as_ascii(needle@),
            ci ==> forall|j: int| 0 <= j < i ==> #[trigger] lowers_as_ascii(ls[j]),
            ci == options.case_insensitive,
            found.len() <= i,
            forall|k: int|
                0 <= k < found.len() ==> is_match_of(#[trigger] match_views(found@)[k], path@, ls, needle@, ci)
                    && match_views(found@)[k].line_number <= i,
            forall|a: int, b: int|
                0 <= a < b < found.len() ==> #[trigger] match_views(found@)[a].line_number
                    < #[trigger] match_views(found@)[b].line_number,
            forall|j: int|
                0 <= j < i && line_matches(#[trigger] ls[j], needle@, ci) ==> exists|k: int|
                    0 <= k < found.len() && #[trigger] match_views(found@)[k].line_number == j + 1,
    {
        let line = &lines[i];
        assert(ls[i as int] == line@);
        let ghost before = match_views(found@);
        if line_is_match(line, needle, &key, ci) {
            let m = SearchMatch::new(path, i + 1, line.as_str());
            found.push(m);
            proof {
                assert(match_views(found@) =~= before.push(m@));
                assert(match_views(found@)[found.len() - 1].line_number == i + 1);
            }
        }
        proof {
            assert forall|j: int|
                0 <= j < i + 1 && line_matches(#[trigger] ls[j], needle@, ci) implies exists|k: int|
                    0 <= k < found.len() && #[trigger] match_views(found@)[k].line_number == j + 1 by {
                if j < i {
                    let k = choose|k: int| 0 <= k < before.len() && #[trigger] before[k].line_number == j + 1;
                    assert(match_views(found@)[k] == before[k]);
                } else {
                    assert(match_views(found@)[found.len() - 1].line_number == j + 1);
                }
            }
        }
    }
    found
}

/// Searches the text of the file at `path`, line by line, for `needle`.
pub fn search_content(needle: &str, path: &str, content: &str, options: SearchOptions) -> (found: Vec<SearchMatch>)
    ensures
        search_result(match_views(found@), path@, lines_of(content@), needle@, options.case_insensitive),
{
    let lines = split_lines(content);
    search_lines(needle, path, &lines, options)
}

/// Lowering both texts character by character keeps an occurrence.
proof fn lemma_ascii_lowercase_keeps_occurrence(hay: Seq<char>, needle: Seq<char>, i: int)
    requires
        occurs_at(hay, needle, i),
    ensures
        occurs_at(ascii_lowercase(hay), ascii_lowercase(needle), i),
{
    assert(ascii_lowercase(hay).subrange(i, i + needle.len()) =~= ascii_lowercase(needle));
}

/// For ASCII lines and an ASCII needle, every match of a case-sensitive search
/// is also a match of the case-insensitive search of the same lines.
pub proof fn lemma_ascii_case_sensitive_matches_kept(
    exact: Seq<MatchView>,
    folded: Seq<MatchView>,
    path: Seq<char>,
    lines: Seq<Seq<char>>,
    needle: Seq<char>,
)
    requires
        search_result(exact, path, lines, needle, false),
        search_result(folded, path, lines, needle, true),
        is_ascii_chars(needle),
        forall|i: int| 0 <= i < lines.len() ==> #[trigger] is_ascii_chars(lines[i]),
    ensures
        forall|k: int| 0 <= k < exact.len() ==> folded.contains(#[trigger] exact[k]),
{
    assert forall|k: int| 0 <= k < exact.len() implies folded.contains(#[trigger] exact[k]) by {
        let m = exact[k];
        assert(is_match_of(m, path, lines, needle, false));
        let line = lines[m.line_number - 1];
        assert(is_ascii_chars(line));
        assert(lowers_as_ascii(line));
        let i = choose|i: int| occurs_at(line, needle, i);
        lemma_ascii_lowercase_keeps_occurrence(line, needle, i);
        assert(line_matches(line, needle, true));
        let j = m.line_number - 1;
        assert(line_matches(lines[j], needle, true));
        let k2 = choose|k2: int| 0 <= k2 < folded.len() && #[trigger] folded[k2].line_number == j + 1;
        assert(is_match_of(folded[k2], path, lines, needle, true));
        assert(folded[k2] == m);
    }
}

/// Case-insensitive searches for two needles with the same lower case give
/// the same matches.
pub proof fn lemma_same_lowercase_needles_same_result(
    f1: Seq<MatchView>,
    f2: Seq<MatchView>,
    path: Seq<char>,
    lines: Seq<Seq<char>>,
    n1: Seq<char>,
    n2: Seq<char>,
)
    requires
        reports_matches(f1, path, lines, n1, true),
        reports_matches(f2, path, lines, n2, true),
        lowercase(n1) == lowercase(n2),
    ensures
        f1 == f2,
{
    assert forall|line: Seq<char>| line_matches(line, n1, true) == line_matches(line, n2, true) by {}
    assert(reports_matches(f1, path, lines, n2, true));
    lemma_reports_matches_unique(f1, f2, path, lines, n2, true);
}

/// Case-insensitive searches for two ASCII needles that differ only in the
/// case of their letters give the same matches.
pub proof fn lemma_ascii_case_of_needle_irrelevant(
    f1: Seq<MatchView>,
    f2: Seq<MatchView>,
    path: Seq<char>,
    lines: Seq<Seq<char>>,
    n1: Seq<char>,
    n2: Seq<char>,
)
    requires
        search_result(f1, path, lines, n1, true),
        search_result(f2, path, lines, n2, true),
        is_ascii_chars(n1),
        is_ascii_chars(n2),
        ascii_lowercase(n1) == ascii_lowercase(n2),
    ensures
        f1 == f2,
{
    lemma_same_lowercase_needles_same_result(f1, f2, path, lines, n1, n2);
}

} // verus!
