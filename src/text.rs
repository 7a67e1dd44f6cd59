//! Splitting text into the non-empty segments between separators.
use vstd::prelude::*;

verus! {

/// The characters after the last separator of `s`.
pub open spec fn tail_segment(s: Seq<char>, sep: char) -> Seq<char>
    decreases s.len(),
{
    if s.len() == 0 {
        Seq::empty()
    } else if s.last() == sep {
        Seq::empty()
    } else {
        tail_segment(s.drop_last(), sep).push(s.last())
    }
}

/// The non-empty segments of `s` that a separator has already closed, in order.
pub open spec fn closed_segments(s: Seq<char>, sep: char) -> Seq<Seq<char>>
    decreases s.len(),
{
    if s.len() == 0 {
        Seq::empty()
    } else if s.last() == sep {
        let prev = closed_segments(s.drop_last(), sep);
        let cur = tail_segment(s.drop_last(), sep);
        if cur.len() > 0 {
            prev.push(cur)
        } else {
            prev
        }
    } else {
        closed_segments(s.drop_last(), sep)
    }
}

/// The segments of `s` that a separator has already closed, empty ones included.
pub open spec fn closed_pieces(s: Seq<char>, sep: char) -> Seq<Seq<char>>
    decreases s.len(),
{
    if s.len() == 0 {
        Seq::empty()
    } else if s.last() == sep {
        closed_pieces(s.drop_last(), sep).push(tail_segment(s.drop_last(), sep))
    } else {
        closed_pieces(s.drop_last(), sep)
    }
}

/// `s` split on `sep`, empty segments included.
pub open spec fn pieces(s: Seq<char>, sep: char) -> Seq<Seq<char>> {
    closed_pieces(s, sep).push(tail_segment(s, sep))
}

/// `s` split on `sep`, with empty segments dropped.
pub open spec fn segments(s: Seq<char>, sep: char) -> Seq<Seq<char>> {
    let cur = tail_segment(s, sep);
    if cur.len() > 0 {
        closed_segments(s, sep).push(cur)
    } else {
        closed_segments(s, sep)
    }
}

pub open spec fn views_of(v: Seq<Vec<char>>) -> Seq<Seq<char>> {
    v.map_values(|x: Vec<char>| x@)
}

/// `v` holds a string with the characters `u`.
pub open spec fn lists(v: Seq<String>, u: Seq<char>) -> bool {
    exists|k: int| 0 <= k < v.len() && #[trigger] v[k]@ == u
}

/// A separator at the end adds no segment.
pub proof fn lemma_trailing_separator(s: Seq<char>, sep: char)
    ensures
        segments(s.push(sep), sep) == segments(s, sep),
{
    assert(s.push(sep).drop_last() == s);
}

/// Splits `s` on `sep`, keeping the empty segments.
pub fn split_all(s: &Vec<char>, sep: char) -> (r: Vec<Vec<char>>)
    ensures
        views_of(r@) == pieces(s@, sep),
{
    let mut out: Vec<Vec<char>> = Vec::new();
    let mut cur: Vec<char> = Vec::new();
    let mut i: usize = 0;
    while i < s.len()
        invariant
            i <= s@.len(),
            views_of(out@) == closed_pieces(s@.take(i as int), sep),
            cur@ == tail_segment(s@.take(i as int), sep),
        decreases s@.len() - i,
    {
        let c = s[i];
        assert(s@.take(i as int + 1).drop_last() == s@.take(i as int));
        if c == sep {
            let ghost prev = out@;
            let done = cur;
            out.push(done);
            cur = Vec::new();
            assert(views_of(out@) =~= views_of(prev).push(done@));
        } else {
            cur.push(c);
        }
        i = i + 1;
    }
    assert(s@.take(s@.len() as int) == s@);
    let ghost prev = out@;
    let ghost last = cur@;
    out.push(cur);
    assert(views_of(out@) =~= views_of(prev).push(last));
    out
}

/// Relies on `str::chars`: it yields the characters of the string in order.
#[verifier::external_body]
pub(crate) fn chars_of(s: &str) -> (r: Vec<char>)
    ensures
        r@ == s@,
{
    s.chars().collect()
}

/// Relies on `String: FromIterator<char>`: the string of the characters in order.
#[verifier::external_body]
pub(crate) fn string_of(chars: &Vec<char>) -> (r: String)
    ensures
        r@ == chars@,
{
    chars.iter().collect()
}

/// Whether `a` and `b` hold the same characters.
pub fn str_equal(a: &str, b: &str) -> (r: bool)
    ensures
        r == (a@ == b@),
{
    let n = a.unicode_len();
    if n != b.unicode_len() {
        return false;
    }
    let mut i: usize = 0;
    while i < n
        invariant
            n == a@.len() == b@.len(),
            i <= n,
            forall|j: int| 0 <= j < i ==> a@[j] == b@[j],
        decreases n - i,
    {
        if a.get_char(i) != b.get_char(i) {
            return false;
        }
        i = i + 1;
    }
    assert(a@ =~= b@);
    true
}

/// Splits `s` on `sep` and drops the empty segments.
pub fn split_nonempty(s: &Vec<char>, sep: char) -> (r: Vec<Vec<char>>)
    ensures
        views_of(r@) == segments(s@, sep),
{
    let mut out: Vec<Vec<char>> = Vec::new();
    let mut cur: Vec<char> = Vec::new();
    let mut i: usize = 0;
    while i < s.len()
        invariant
            i <= s@.len(),
            views_of(out@) == closed_segments(s@.take(i as int), sep),
            cur@ == tail_segment(s@.take(i as int), sep),
        decreases s@.len() - i,
    {
        let c = s[i];
        assert(s@.take(i as int + 1).drop_last() == s@.take(i as int));
        if c == sep {
            if cur.len() > 0 {
                let ghost prev = out@;
                let done = cur;
                out.push(done);
                cur = Vec::new();
                assert(views_of(out@) =~= views_of(prev).push(done@));
            }
        } else {
            cur.push(c);
        }
        i = i + 1;
    }
    assert(s@.take(s@.len() as int) == s@);
    if cur.len() > 0 {
        let ghost prev = out@;
        let ghost last = cur@;
        out.push(cur);
        assert(views_of(out@) =~= views_of(prev).push(last));
    }
    out
}

} // verus!
