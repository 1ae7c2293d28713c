//! Characters, whitespace tokens and tab-separated fields.
use vstd::prelude::*;

verus! {

/// Whether a character has the Unicode `White_Space` property.
pub uninterp spec fn white_space(c: char) -> bool;

/// Relies on `char::is_whitespace`: the answer depends on the character alone.
#[verifier::external_body]
pub(crate) fn is_white(c: char) -> (r: bool)
    ensures
        r == white_space(c),
{
    c.is_whitespace()
}

/// Relies on `str::chars`: the characters of the text, in order.
#[verifier::external_body]
pub(crate) fn chars_of(s: &str) -> (r: Vec<char>)
    ensures
        r@ == s@,
{
    s.chars().collect()
}

/// Relies on `String`'s `FromIterator<&char>`: a string holding exactly these characters.
#[verifier::external_body]
pub(crate) fn string_of(cs: &Vec<char>) -> (r: String)
    ensures
        r@ == cs@,
{
    cs.iter().collect()
}

/// The whitespace-separated tokens of `s`: its maximal runs of
/// non-whitespace characters, left to right.
pub open spec fn tokens(s: Seq<char>) -> Seq<Seq<char>>
    decreases s.len(),
{
    if s.len() == 0 {
        seq![]
    } else {
        let prev = tokens(s.drop_last());
        let c = s.last();
        if white_space(c) {
            prev
        } else if s.len() >= 2 && !white_space(s[s.len() - 2]) && prev.len() > 0 {
            prev.update(prev.len() - 1, prev.last().push(c))
        } else {
            prev.push(seq![c])
        }
    }
}

/// The characters held by each of a sequence of character vectors.
pub open spec fn views(v: Seq<Vec<char>>) -> Seq<Seq<char>> {
    v.map_values(|x: Vec<char>| x@)
}

/// The characters held by each of a sequence of strings.
pub open spec fn string_views(v: Seq<String>) -> Seq<Seq<char>> {
    v.map_values(|x: String| x@)
}

/// Splits `s` at whitespace into its tokens.
pub fn split_tokens(s: &str) -> (r: Vec<Vec<char>>)
    ensures
        views(r@) == tokens(s@),
{
    let cs = chars_of(s);
    let mut done: Vec<Vec<char>> = Vec::new();
    let mut cur: Vec<char> = Vec::new();
    let mut in_token = false;
    let mut i: usize = 0;
    while i < cs.len()
        invariant
            0 <= i <= cs.len(),
            cs@ == s@,
            in_token == (i > 0 && !white_space(cs@[i - 1])),
            in_token ==> views(done@).push(cur@) == tokens(cs@.take(i as int)),
            !in_token ==> views(done@) == tokens(cs@.take(i as int)),
        decreases cs.len() - i,
    {
        let c = cs[i];
        let w = is_white(c);
        let ghost pre = cs@.take(i as int);
        assert(cs@.take(i + 1).drop_last() == pre);
        let ghost old_done = views(done@);
        let ghost old_cur = cur@;
        assert(cs@.take(i + 1) =~= pre.push(c));
        if w {
            if in_token {
                let t = cur;
                cur = Vec::new();
                done.push(t);
                assert(views(done@) =~= old_done.push(old_cur));
            }
            in_token = false;
        } else {
            if in_token {
                cur.push(c);
                assert(pre.len() >= 1 && pre.last() == cs@[i - 1]);
                assert(views(done@).push(cur@) =~= old_done.push(old_cur).update(
                    old_done.len() as int,
                    old_cur.push(c),
                ));
            } else {
                cur = Vec::new();
                cur.push(c);
                in_token = true;
                assert(cur@ =~= seq![c]);
            }
        }
        i = i + 1;
    }
    if in_token {
        let ghost old_done = views(done@);
        done.push(cur);
        assert(views(done@) =~= old_done.push(cur@));
    }
    assert(cs@.take(cs.len() as int) == cs@);
    done
}

} // verus!
