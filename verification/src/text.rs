use vstd::prelude::*;
use vstd::utf8::is_ascii_chars;

verus! {

/// Whether `needle` occurs in `hay` starting at position `i`.
pub open spec fn occurs_at(hay: Seq<char>, needle: Seq<char>, i: int) -> bool {
    &&& 0 <= i
    &&& i + needle.len() <= hay.len()
    &&& hay.subrange(i, i + needle.len()) == needle
}

/// Whether `needle` is a contiguous part of `hay` (the empty needle is part of every text).
pub open spec fn contains(hay: Seq<char>, needle: Seq<char>) -> bool {
    exists|i: int| #[trigger] occurs_at(hay, needle, i)
}

/// A text contains exactly what stands in it: `n` is contained in any text
/// that has `n` in the middle of it, whatever the lengths, and a text that
/// contains `n` is of that form.
pub proof fn lemma_contains_is_substring(p: Seq<char>, n: Seq<char>, q: Seq<char>)
    ensures
        contains(p + n + q, n),
{
    assert((p + n + q).subrange(p.len() as int, (p.len() + n.len()) as int) =~= n);
    assert(occurs_at(p + n + q, n, p.len() as int));
}

/// A text that contains `n` has `n` in it, between some text before and some text after.
pub proof fn lemma_contained_has_context(hay: Seq<char>, n: Seq<char>)
    requires
        contains(hay, n),
    ensures
        exists|p: Seq<char>, q: Seq<char>| hay == #[trigger] (p + n + q),
{
    let i = choose|i: int| occurs_at(hay, n, i);
    let p = hay.subrange(0, i);
    let q = hay.subrange(i + n.len(), hay.len() as int);
    assert(hay =~= p + n + q);
}

/// Every text contains itself.
pub proof fn lemma_contains_itself(s: Seq<char>)
    ensures
        contains(s, s),
{
    lemma_contains_is_substring(Seq::empty(), s, Seq::empty());
    assert(Seq::<char>::empty() + s + Seq::<char>::empty() =~= s);
}

/// The characters of a string, in order.
pub fn chars_of(s: &str) -> (v: Vec<char>)
    ensures
        v@ == s@,
{
    broadcast use vstd::string::group_string_axioms;
    let mut v: Vec<char> = Vec::new();
    for c in it: s.chars()
        invariant
            v@ == it.seq().take(it.index()),
    {
        v.push(c);
    }
    v
}

/// Whether `needle` occurs in `hay`.
pub fn contains_chars(hay: &Vec<char>, needle: &Vec<char>) -> (r: bool)
    ensures
        r == contains(hay@, needle@),
{
    let n = needle.len();
    let h = hay.len();
    if n > h {
        assert forall|i: int| !occurs_at(hay@, needle@, i) by {}
        return false;
    }
    let mut i: usize = 0;
    while i <= h - n
        invariant
            n == needle.len(),
            h == hay.len(),
            n <= h,
            i <= h - n + 1,
            forall|k: int| 0 <= k < i ==> !#[trigger] occurs_at(hay@, needle@, k),
        decreases h - n + 1 - i,
    {
        let mut j: usize = 0;
        while j < n && hay[i + j] == needle[j]
            invariant
                n == needle.len(),
                h == hay.len(),
                i + n <= h,
                j <= n,
                forall|t: int| 0 <= t < j ==> hay@[i + t] == needle@[t],
            decreases n - j,
        {
            j += 1;
        }
        if j == n {
            assert(hay@.subrange(i as int, i + n) =~= needle@);
            assert(occurs_at(hay@, needle@, i as int));
            return true;
        }
        assert(hay@.subrange(i as int, i + n)[j as int] != needle@[j as int]);
        i += 1;
    }
    assert forall|k: int| !occurs_at(hay@, needle@, k) by {
        if 0 <= k < i {
        }
    }
    false
}

/// What `str::to_lowercase` gives for a text: its full Unicode lower-case
/// mapping, which is not a character-by-character map.
pub uninterp spec fn lowercase(s: Seq<char>) -> Seq<char>;

/// The ASCII lower case of a character: `A` to `Z` become `a` to `z`, every
/// other character stays as it is.
pub open spec fn ascii_lower_char(c: char) -> char {
    if 'A' <= c && c <= 'Z' {
        ((c as u32) + 32) as char
    } else {
        c
    }
}

/// The ASCII lower case of a text, character by character.
pub open spec fn ascii_lowercase(s: Seq<char>) -> Seq<char> {
    s.map_values(|c: char| ascii_lower_char(c))
}

/// Whether lowering `s` agrees with its ASCII lower case, where `s` is ASCII.
pub open spec fn lowers_as_ascii(s: Seq<char>) -> bool {
    is_ascii_chars(s) ==> lowercase(s) == ascii_lowercase(s)
}

/// Calls `str::to_lowercase`. Trusted: its result is `lowercase` of the
/// argument's characters, and for an all-ASCII argument that is its ASCII
/// lower case (the Unicode lower-case mapping of `A`..`Z` is `a`..`z`, and
/// every other ASCII character maps to itself). Nothing else is stated of the
/// mapping.
#[verifier::external_body]
pub(crate) fn to_lowercase(s: &str) -> (r: String)
    ensures
        r@ == lowercase(s@),
        is_ascii_chars(s@) ==> r@ == ascii_lowercase(s@),
{
    s.to_lowercase()
}

/// Calls `FromIterator<&char>` for `String`. Trusted: the string holds exactly
/// the given characters, in order.
#[verifier::external_body]
pub(crate) fn collect_string(chars: &Vec<char>) -> (r: String)
    ensures
        r@ == chars@,
{
    String::from_iter(chars)
}

/// The pieces of `s` between its `sep` characters: `k` separators give
/// `k + 1` pieces, each without a separator.
pub open spec fn pieces(s: Seq<char>, sep: char) -> Seq<Seq<char>>
    decreases s.len(),
{
    if s.len() == 0 {
        seq![Seq::<char>::empty()]
    } else {
        let prev = pieces(s.drop_last(), sep);
        if s.last() == sep {
            prev.push(Seq::<char>::empty())
        } else {
            prev.update(prev.len() - 1, prev.last().push(s.last()))
        }
    }
}

/// The pieces of `s` between its newline characters.
pub open spec fn segments(s: Seq<char>) -> Seq<Seq<char>> {
    pieces(s, '\n')
}

/// A line that was ended by a newline loses a carriage return just before it.
pub open spec fn strip_cr(line: Seq<char>) -> Seq<char> {
    if line.len() > 0 && line.last() == '\r' {
        line.drop_last()
    } else {
        line
    }
}

/// The lines of a text as `BufRead::lines` yields them: every piece ended by
/// `\n` (without a `\r` just before the `\n`), then the unterminated rest if
/// it is not empty.
pub open spec fn lines_of(s: Seq<char>) -> Seq<Seq<char>> {
    let segs = segments(s);
    let ended = segs.drop_last().map_values(|seg: Seq<char>| strip_cr(seg));
    if segs.last().len() == 0 {
        ended
    } else {
        ended.push(segs.last())
    }
}

/// The views of a sequence of strings.
pub open spec fn views(lines: Seq<String>) -> Seq<Seq<char>> {
    lines.map_values(|l: String| l@)
}

pub(crate) proof fn lemma_pieces_nonempty(s: Seq<char>, sep: char)
    ensures
        pieces(s, sep).len() >= 1,
    decreases s.len(),
{
    if s.len() > 0 {
        lemma_pieces_nonempty(s.drop_last(), sep);
    }
}

proof fn lemma_segments_nonempty(s: Seq<char>)
    ensures
        segments(s).len() >= 1,
{
    lemma_pieces_nonempty(s, '\n');
}

proof fn lemma_segments_no_newline(s: Seq<char>)
    ensures
        forall|k: int| 0 <= k < segments(s).len() ==> !(#[trigger] segments(s)[k]).contains('\n'),
    decreases s.len(),
{
    if s.len() > 0 {
        let prev = segments(s.drop_last());
        lemma_segments_nonempty(s.drop_last());
        lemma_segments_no_newline(s.drop_last());
        if s.last() != '\n' {
            let grown = prev.last().push(s.last());
            assert forall|i: int| 0 <= i < grown.len() implies grown[i] != '\n' by {
                if i < prev.last().len() {
                    assert(!prev[prev.len() - 1].contains('\n'));
                    assert(prev.last()[i] != '\n') by {
                        if prev.last()[i] == '\n' {
                            assert(prev[prev.len() - 1].contains('\n'));
                        }
                    }
                }
            }
            assert forall|k: int| 0 <= k < segments(s).len() implies !(#[trigger] segments(s)[k]).contains('\n') by {
                if k == prev.len() - 1 {
                    assert(segments(s)[k] == grown);
                    if grown.contains('\n') {
                        let i = choose|i: int| 0 <= i < grown.len() && grown[i] == '\n';
                    }
                } else {
                    assert(segments(s)[k] == prev[k]);
                }
            }
        } else {
            assert forall|k: int| 0 <= k < segments(s).len() implies !(#[trigger] segments(s)[k]).contains('\n') by {
                if k < prev.len() {
                    assert(segments(s)[k] == prev[k]);
                } else {
                    assert(segments(s)[k] =~= Seq::<char>::empty());
                }
            }
        }
    }
}

/// No line of a text contains a newline character.
pub proof fn lemma_lines_have_no_newline(s: Seq<char>)
    ensures
        forall|k: int| 0 <= k < lines_of(s).len() ==> !(#[trigger] lines_of(s)[k]).contains('\n'),
{
    let segs = segments(s);
    lemma_segments_nonempty(s);
    lemma_segments_no_newline(s);
    let ended = segs.drop_last().map_values(|seg: Seq<char>| strip_cr(seg));
    assert forall|k: int| 0 <= k < ended.len() implies !(#[trigger] ended[k]).contains('\n') by {
        let seg = segs[k];
        assert(!seg.contains('\n'));
        if ended[k].contains('\n') {
            let i = choose|i: int| 0 <= i < ended[k].len() && ended[k][i] == '\n';
            assert(seg[i] == '\n');
        }
    }
    assert forall|k: int| 0 <= k < lines_of(s).len() implies !(#[trigger] lines_of(s)[k]).contains('\n') by {
        if k < ended.len() {
            assert(lines_of(s)[k] == ended[k]);
        } else {
            assert(lines_of(s)[k] == segs.last());
            assert(!segs[segs.len() - 1].contains('\n'));
        }
    }
}

/// The text made of the given lines, each followed by a newline.
pub open spec fn terminated(lines: Seq<Seq<char>>) -> Seq<char>
    decreases lines.len(),
{
    if lines.len() == 0 {
        Seq::empty()
    } else {
        terminated(lines.drop_last()) + lines.last().push('\n')
    }
}

/// A line as it can be read back: no newline in it, and no carriage return at its end.
pub open spec fn plain_line(l: Seq<char>) -> bool {
    !l.contains('\n') && !(l.len() > 0 && l.last() == '\r')
}

proof fn lemma_segments_append_plain(s: Seq<char>, w: Seq<char>)
    requires
        !w.contains('\n'),
    ensures
        segments(s + w) == segments(s).update(segments(s).len() - 1, segments(s).last() + w),
    decreases w.len(),
{
    lemma_segments_nonempty(s);
    if w.len() == 0 {
        assert(s + w =~= s);
        assert(segments(s).last() + w =~= segments(s).last());
        assert(segments(s).update(segments(s).len() - 1, segments(s).last()) =~= segments(s));
    } else {
        let w1 = w.drop_last();
        assert(!w1.contains('\n')) by {
            if w1.contains('\n') {
                let i = choose|i: int| 0 <= i < w1.len() && w1[i] == '\n';
                assert(w[i] == '\n');
            }
        }
        assert(w.last() != '\n') by {
            if w.last() == '\n' {
                assert(w[w.len() - 1] == '\n');
            }
        }
        lemma_segments_append_plain(s, w1);
        assert((s + w).drop_last() =~= s + w1);
        assert((s + w).last() == w.last());
        lemma_segments_nonempty(s + w1);
        let prev = segments(s + w1);
        assert(segments(s + w) == prev.update(prev.len() - 1, prev.last().push(w.last())));
        let segs = segments(s);
        let n = segs.len() as int;
        assert(prev == segs.update(n - 1, segs.last() + w1));
        assert(prev.len() == n);
        assert(prev.last() == segs.last() + w1);
        assert((segs.last() + w1).push(w.last()) =~= segs.last() + w);
        assert(segments(s + w) =~= segs.update(n - 1, segs.last() + w));
    }
}

proof fn lemma_segments_terminated(lines: Seq<Seq<char>>)
    requires
        forall|i: int| 0 <= i < lines.len() ==> !(#[trigger] lines[i]).contains('\n'),
    ensures
        segments(terminated(lines)) == lines.push(Seq::<char>::empty()),
    decreases lines.len(),
{
    if lines.len() == 0 {
        assert(segments(Seq::<char>::empty()) =~= seq![Seq::<char>::empty()]);
    } else {
        let pre = lines.drop_last();
        let l = lines.last();
        assert forall|i: int| 0 <= i < pre.len() implies !(#[trigger] pre[i]).contains('\n') by {
            assert(pre[i] == lines[i]);
        }
        lemma_segments_terminated(pre);
        let t = terminated(pre);
        assert(!l.contains('\n')) by {
            assert(lines[lines.len() - 1] == l);
        }
        lemma_segments_append_plain(t, l);
        assert(terminated(lines) =~= (t + l).push('\n'));
        assert((t + l).push('\n').drop_last() =~= t + l);
        assert(pre.push(Seq::<char>::empty()).update(pre.len() as int, Seq::<char>::empty() + l) =~= lines);
        assert(segments(terminated(lines)) =~= lines.push(Seq::<char>::empty()));
    }
}

/// Splitting reads back the lines that a text was made of: the text of
/// `lines`, each ended by a newline, splits into exactly `lines`, whatever
/// their lengths.
pub proof fn lemma_lines_of_terminated(lines: Seq<Seq<char>>)
    requires
        forall|i: int| 0 <= i < lines.len() ==> #[trigger] plain_line(lines[i]),
    ensures
        lines_of(terminated(lines)) == lines,
{
    assert forall|i: int| 0 <= i < lines.len() implies !(#[trigger] lines[i]).contains('\n') by {
        assert(plain_line(lines[i]));
    }
    lemma_segments_terminated(lines);
    let segs = segments(terminated(lines));
    assert(segs.drop_last() =~= lines);
    let ended = segs.drop_last().map_values(|seg: Seq<char>| strip_cr(seg));
    assert forall|i: int| 0 <= i < lines.len() implies ended[i] == lines[i] by {
        assert(plain_line(lines[i]));
    }
    assert(ended =~= lines);
}

/// A last line without a newline after it is read back too: the text of
/// `lines`, each ended by a newline, then `last`, splits into `lines` and `last`.
pub proof fn lemma_lines_of_unterminated_last(lines: Seq<Seq<char>>, last: Seq<char>)
    requires
        forall|i: int| 0 <= i < lines.len() ==> #[trigger] plain_line(lines[i]),
        last.len() > 0,
        !last.contains('\n'),
    ensures
        lines_of(terminated(lines) + last) == lines.push(last),
{
    assert forall|i: int| 0 <= i < lines.len() implies !(#[trigger] lines[i]).contains('\n') by {
        assert(plain_line(lines[i]));
    }
    lemma_segments_terminated(lines);
    lemma_segments_append_plain(terminated(lines), last);
    let segs = segments(terminated(lines) + last);
    assert(segs =~= lines.push(last));
    assert(segs.drop_last() =~= lines);
    let ended = segs.drop_last().map_values(|seg: Seq<char>| strip_cr(seg));
    assert forall|i: int| 0 <= i < lines.len() implies ended[i] == lines[i] by {
        assert(plain_line(lines[i]));
    }
    assert(ended =~= lines);
    assert(segs.last() == last);
}

/// Splits a text into lines, as reading it line by line does.
pub fn split_lines(content: &str) -> (lines: Vec<String>)
    ensures
        views(lines@) == lines_of(content@),
{
    let chars = chars_of(content);
    let mut lines: Vec<String> = Vec::new();
    let mut cur: Vec<char> = Vec::new();
    let mut i: usize = 0;
    proof {
        assert(chars@.take(0) =~= Seq::<char>::empty());
    }
    while i < chars.len()
        invariant
            chars@ == content@,
            i <= chars.len(),
            segments(chars@.take(i as int)).len() == lines.len() + 1,
            cur@ == segments(chars@.take(i as int)).last(),
            forall|k: int|
                0 <= k < lines.len() ==> #[trigger] lines@[k]@ == strip_cr(
                    segments(chars@.take(i as int))[k],
                ),
        decreases chars.len() - i,
    {
        let c = chars[i];
        let ghost prev = segments(chars@.take(i as int));
        proof {
            assert(chars@.take(i + 1).drop_last() =~= chars@.take(i as int));
            lemma_segments_nonempty(chars@.take(i as int));
        }
        if c == '\n' {
            let len = cur.len();
            if len > 0 && cur[len - 1] == '\r' {
                cur.pop();
            }
            lines.push(collect_string(&cur));
            cur = Vec::new();
        } else {
            cur.push(c);
        }
        i += 1;
    }
    proof {
        assert(chars@.take(i as int) =~= content@);
        let segs = segments(content@);
        let ended = segs.drop_last().map_values(|seg: Seq<char>| strip_cr(seg));
        assert(views(lines@) =~= ended);
    }
    if cur.len() > 0 {
        let ghost before = lines@;
        lines.push(collect_string(&cur));
        proof {
            let segs = segments(content@);
            let ended = segs.drop_last().map_values(|seg: Seq<char>| strip_cr(seg));
            assert(views(before) =~= ended);
            assert(views(lines@) =~= ended.push(segs.last()));
        }
    }
    lines
}

/// The character of a decimal digit.
pub open spec fn digit_char(d: nat) -> char {
    if d == 0 { '0' }
    else if d == 1 { '1' }
    else if d == 2 { '2' }
    else if d == 3 { '3' }
    else if d == 4 { '4' }
    else if d == 5 { '5' }
    else if d == 6 { '6' }
    else if d == 7 { '7' }
    else if d == 8 { '8' }
    else { '9' }
}

/// The decimal notation of a number, without leading zeros.
pub open spec fn decimal(n: nat) -> Seq<char>
    decreases n,
{
    if n < 10 {
        seq![digit_char(n)]
    } else {
        decimal(n / 10).push(digit_char(n % 10))
    }
}

/// The value of a decimal digit character.
pub open spec fn digit_value(c: char) -> int {
    (c as int) - ('0' as int)
}

/// The number that a string of decimal digits stands for.
pub open spec fn digits_value(s: Seq<char>) -> int
    decreases s.len(),
{
    if s.len() == 0 {
        0
    } else {
        digits_value(s.drop_last()) * 10 + digit_value(s.last())
    }
}

/// The decimal notation of a number is its notation in base 10: it is made
/// of digits, it stands for the number, and it has no leading zero.
pub proof fn lemma_decimal_is_base_ten(n: nat)
    ensures
        decimal(n).len() >= 1,
        forall|i: int| 0 <= i < decimal(n).len() ==> '0' <= #[trigger] decimal(n)[i] <= '9',
        digits_value(decimal(n)) == n,
        n >= 10 ==> decimal(n)[0] != '0',
    decreases n,
{
    if n < 10 {
        assert(decimal(n) =~= seq![digit_char(n)]);
        assert(seq![digit_char(n)].drop_last() =~= Seq::<char>::empty());
        assert(digits_value(Seq::<char>::empty()) == 0);
    } else {
        lemma_decimal_is_base_ten(n / 10);
        let d = n % 10;
        let prev = decimal(n / 10);
        assert(decimal(n) == prev.push(digit_char(d)));
        assert(prev.push(digit_char(d)).drop_last() =~= prev);
        assert(digit_value(digit_char(d)) == d);
        assert(n == (n / 10) * 10 + d);
        assert(decimal(n)[0] == prev[0]);
        if n / 10 < 10 {
            assert(n / 10 >= 1);
            assert(prev =~= seq![digit_char(n / 10)]);
        }
    }
}

/// The character of decimal digit `d`.
fn digit(d: usize) -> (c: char)
    requires
        d < 10,
    ensures
        c == digit_char(d as nat),
{
    if d == 0 { '0' }
    else if d == 1 { '1' }
    else if d == 2 { '2' }
    else if d == 3 { '3' }
    else if d == 4 { '4' }
    else if d == 5 { '5' }
    else if d == 6 { '6' }
    else if d == 7 { '7' }
    else if d == 8 { '8' }
    else { '9' }
}

/// The decimal notation of `n`, as characters.
pub fn decimal_chars(n: usize) -> (v: Vec<char>)
    ensures
        v@ == decimal(n as nat),
    decreases n,
{
    if n < 10 {
        let mut v = Vec::new();
        v.push(digit(n));
        v
    } else {
        let mut v = decimal_chars(n / 10);
        v.push(digit(n % 10));
        v
    }
}

} // verus!
