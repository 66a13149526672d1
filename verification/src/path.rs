use vstd::prelude::*;

use crate::text::{chars_of, lemma_pieces_nonempty, pieces};

verus! {

/// Whether a piece between separators names something: it is neither empty
/// nor `.`.
pub open spec fn is_name(piece: Seq<char>) -> bool {
    piece.len() > 0 && piece != seq!['.']
}

/// The pieces that name something, in order.
pub open spec fn names_of(pieces: Seq<Seq<char>>) -> Seq<Seq<char>>
    decreases pieces.len(),
{
    if pieces.len() == 0 {
        pieces
    } else if is_name(pieces.last()) {
        names_of(pieces.drop_last()).push(pieces.last())
    } else {
        names_of(pieces.drop_last())
    }
}

/// The components of a Unix path, as `Path::components` gives them: the root
/// (written `/`) or a leading `.`, then the pieces between separators that
/// name something. `a//b/`, `a/./b` and `a/b` have the same components.
pub open spec fn path_components(p: Seq<char>) -> Seq<Seq<char>> {
    let names = names_of(pieces(p, '/'));
    if p.len() > 0 && p[0] == '/' {
        seq![seq!['/']] + names
    } else if pieces(p, '/')[0] == seq!['.'] {
        seq![seq!['.']] + names
    } else {
        names
    }
}

/// The views of a sequence of character vectors.
pub open spec fn char_vec_views(v: Seq<Vec<char>>) -> Seq<Seq<char>> {
    v.map_values(|c: Vec<char>| c@)
}

fn is_dot(c: &Vec<char>) -> (r: bool)
    ensures
        r == (c@ == seq!['.']),
{
    if c.len() == 1 && c[0] == '.' {
        assert(c@ =~= seq!['.']);
        true
    } else {
        assert(c@.len() != 1 || c@[0] != seq!['.'][0]);
        false
    }
}

proof fn lemma_first_piece_kept(s: Seq<char>, x: char, sep: char)
    requires
        pieces(s, sep).len() > 1 || x == sep,
    ensures
        pieces(s.push(x), sep)[0] == pieces(s, sep)[0],
{
    assert(s.push(x).drop_last() =~= s);
    lemma_pieces_nonempty(s, sep);
}

/// The components of path `p`.
pub fn path_components_of(p: &str) -> (v: Vec<Vec<char>>)
    ensures
        char_vec_views(v@) == path_components(p@),
{
    let chars = chars_of(p);
    let mut names: Vec<Vec<char>> = Vec::new();
    let mut cur: Vec<char> = Vec::new();
    let mut first_is_dot = false;
    let mut seen_sep = false;
    let mut i: usize = 0;
    assert(chars@.take(0) =~= Seq::<char>::empty());
    while i < chars.len()
        invariant
            chars@ == p@,
            i <= chars.len(),
            char_vec_views(names@) == names_of(pieces(chars@.take(i as int), '/').drop_last()),
            cur@ == pieces(chars@.take(i as int), '/').last(),
            seen_sep <==> pieces(chars@.take(i as int), '/').len() > 1,
            seen_sep ==> (first_is_dot <==> pieces(chars@.take(i as int), '/')[0] == seq!['.']),
        decreases chars.len() - i,
    {
        let c = chars[i];
        let ghost prefix = chars@.take(i as int);
        let ghost prev = pieces(prefix, '/');
        proof {
            assert(chars@.take(i + 1) =~= prefix.push(c));
            assert(prefix.push(c).drop_last() =~= prefix);
            lemma_pieces_nonempty(prefix, '/');
            if seen_sep || c == '/' {
                lemma_first_piece_kept(prefix, c, '/');
            }
            if c != '/' {
                assert(pieces(prefix.push(c), '/') == prev.update(prev.len() - 1, prev.last().push(c)));
            } else {
                assert(pieces(prefix.push(c), '/') == prev.push(Seq::<char>::empty()));
            }
        }
        if c == '/' {
            if !seen_sep {
                first_is_dot = is_dot(&cur);
                seen_sep = true;
            }
            let dot = is_dot(&cur);
            let ghost before = names@;
            if cur.len() > 0 && !dot {
                names.push(cur);
                proof {
                    assert(char_vec_views(names@) =~= char_vec_views(before).push(prev.last()));
                }
            }
            proof {
                assert(pieces(prefix.push(c), '/').drop_last() =~= prev);
            }
            cur = Vec::new();
        } else {
            cur.push(c);
            proof {
                assert(pieces(prefix.push(c), '/').drop_last() =~= prev.drop_last());
            }
        }
        i += 1;
    }
    proof {
        assert(chars@.take(i as int) =~= p@);
        lemma_pieces_nonempty(p@, '/');
    }
    if !seen_sep {
        first_is_dot = is_dot(&cur);
    }
    let dot = is_dot(&cur);
    let ghost before = names@;
    if cur.len() > 0 && !dot {
        names.push(cur);
        proof {
            assert(char_vec_views(names@) =~= char_vec_views(before).push(pieces(p@, '/').last()));
        }
    }
    let ghost all_names = names_of(pieces(p@, '/'));
    assert(char_vec_views(names@) == all_names);
    let rooted = chars.len() > 0 && chars[0] == '/';
    if rooted || first_is_dot {
        let mut lead: Vec<char> = Vec::new();
        lead.push(if rooted { '/' } else { '.' });
        let mut out: Vec<Vec<char>> = Vec::new();
        out.push(lead);
        let ghost lead_view = char_vec_views(out@);
        out.append(&mut names);
        proof {
            assert(char_vec_views(out@) =~= lead_view + all_names);
            if rooted {
                assert(lead_view =~= seq![seq!['/']]);
            } else {
                assert(lead_view =~= seq![seq!['.']]);
            }
        }
        out
    } else {
        names
    }
}

/// Whether two character vectors are equal.
fn chars_equal(a: &Vec<char>, b: &Vec<char>) -> (r: bool)
    ensures
        r == (a@ == b@),
{
    if a.len() != b.len() {
        return false;
    }
    let mut i: usize = 0;
    while i < a.len()
        invariant
            a.len() == b.len(),
            i <= a.len(),
            forall|k: int| 0 <= k < i ==> a@[k] == b@[k],
        decreases a.len() - i,
    {
        if a[i] != b[i] {
            return false;
        }
        i += 1;
    }
    assert(a@ =~= b@);
    true
}

/// Whether two paths are equal as `Path` compares them: by their components.
pub fn same_path(a: &str, b: &str) -> (r: bool)
    ensures
        r == (path_components(a@) == path_components(b@)),
{
    let ca = path_components_of(a);
    let cb = path_components_of(b);
    if ca.len() != cb.len() {
        assert(char_vec_views(ca@).len() != char_vec_views(cb@).len());
        assert(path_components(a@) != path_components(b@));
        return false;
    }
    let mut i: usize = 0;
    while i < ca.len()
        invariant
            ca.len() == cb.len(),
            i <= ca.len(),
            char_vec_views(ca@) == path_components(a@),
            char_vec_views(cb@) == path_components(b@),
            forall|k: int| 0 <= k < i ==> ca@[k]@ == cb@[k]@,
        decreases ca.len() - i,
    {
        if !chars_equal(&ca[i], &cb[i]) {
            assert(ca@[i as int]@ != cb@[i as int]@);
            assert(char_vec_views(ca@)[i as int] == ca@[i as int]@);
            assert(char_vec_views(cb@)[i as int] == cb@[i as int]@);
            assert(path_components(a@) != path_components(b@));
            return false;
        }
        i += 1;
    }
    assert(char_vec_views(ca@) =~= char_vec_views(cb@));
    assert(path_components(a@) == path_components(b@));
    true
}

} // verus!
