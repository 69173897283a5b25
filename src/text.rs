//! Character-level helpers on paths and names.

use vstd::prelude::*;
use vstd::string::*;

verus! {

/// Whether `s` ends with `suffix`.
pub open spec fn ends_with(s: Seq<char>, suffix: Seq<char>) -> bool {
    s.len() >= suffix.len() && s.subrange(s.len() - suffix.len(), s.len() as int) == suffix
}

/// Where the last `/`-separated segment of `p` starts.
pub open spec fn segment_start(p: Seq<char>) -> int
    decreases p.len(),
{
    if p.len() == 0 {
        0
    } else if p.last() == '/' {
        p.len() as int
    } else {
        segment_start(p.drop_last())
    }
}

/// The last `/`-separated segment of `p`.
pub open spec fn last_segment(p: Seq<char>) -> Seq<char> {
    p.subrange(segment_start(p), p.len() as int)
}

/// `p` with its last `/`-separated segment replaced by `s`.
pub open spec fn with_last_segment(p: Seq<char>, s: Seq<char>) -> Seq<char> {
    p.subrange(0, segment_start(p)) + s
}

/// The last segment starts within the path, holds no separator, and follows
/// one unless it starts the path.
pub proof fn lemma_segment_start_bounds(p: Seq<char>)
    ensures
        0 <= segment_start(p) <= p.len(),
        forall|i: int| segment_start(p) <= i < p.len() ==> p[i] != '/',
        segment_start(p) > 0 ==> p[segment_start(p) - 1] == '/',
    decreases p.len(),
{
    if p.len() > 0 && p.last() != '/' {
        let q = p.drop_last();
        lemma_segment_start_bounds(q);
        assert forall|i: int| segment_start(p) <= i < p.len() implies p[i] != '/' by {
            if i < q.len() {
                assert(p[i] == q[i]);
            }
        }
    }
}

/// Replacing the last segment with a segment `s` free of `/` leaves `s` as the
/// last segment, and replacing it again is as replacing it once.
pub proof fn lemma_replace_last_segment(p: Seq<char>, s: Seq<char>, x: Seq<char>)
    requires
        forall|i: int| 0 <= i < s.len() ==> s[i] != '/',
    ensures
        last_segment(with_last_segment(p, s)) == s,
        with_last_segment(with_last_segment(p, s), x) == with_last_segment(p, x),
{
    let q = with_last_segment(p, s);
    let head = p.subrange(0, segment_start(p));
    lemma_segment_start_bounds(p);
    lemma_segment_start_of_append(head, s);
    assert(q.subrange(0, segment_start(q)) =~= head);
    assert(last_segment(q) =~= s);
}

proof fn lemma_segment_start_of_append(head: Seq<char>, s: Seq<char>)
    requires
        forall|i: int| 0 <= i < s.len() ==> s[i] != '/',
        head.len() == 0 || head.last() == '/',
    ensures
        segment_start(head + s) == head.len(),
    decreases s.len(),
{
    if s.len() == 0 {
        assert(head + s =~= head);
    } else {
        assert((head + s).drop_last() =~= head + s.drop_last());
        lemma_segment_start_of_append(head, s.drop_last());
    }
}

/// Whether `s` ends with `suffix`.
pub fn str_ends_with(s: &str, suffix: &str) -> (r: bool)
    ensures
        r == ends_with(s@, suffix@),
{
    let n = s.unicode_len();
    let m = suffix.unicode_len();
    if n < m {
        return false;
    }
    let base = n - m;
    let mut k: usize = 0;
    while k < m
        invariant
            n == s@.len(),
            m == suffix@.len(),
            base == n - m,
            k <= m,
            forall|j: int| 0 <= j < k ==> s@[base + j] == suffix@[j],
        decreases m - k,
    {
        if s.get_char(base + k) != suffix.get_char(k) {
            return false;
        }
        k = k + 1;
    }
    assert(s@.subrange(base as int, n as int) =~= suffix@);
    true
}

/// Whether `a` and `b` hold the same characters.
pub fn str_equal(a: &str, b: &str) -> (r: bool)
    ensures
        r == (a@ == b@),
{
    let n = a.unicode_len();
    if n != b.unicode_len() {
        return false;
    }
    let r = str_ends_with(a, b);
    assert(a@ =~= a@.subrange(0, n as int));
    r
}

/// Where the last `/`-separated segment of `p` starts, counted in characters.
pub fn find_segment_start(p: &str) -> (r: usize)
    ensures
        r == segment_start(p@),
{
    let n = p.unicode_len();
    let mut i = n;
    assert(p@.subrange(0, n as int) =~= p@);
    while i > 0 && p.get_char(i - 1) != '/'
        invariant
            n == p@.len(),
            i <= n,
            segment_start(p@) == segment_start(p@.subrange(0, i as int)),
        decreases i,
    {
        assert(p@.subrange(0, i as int).drop_last() =~= p@.subrange(0, i - 1));
        i = i - 1;
    }
    i
}

/// The characters of `p` from position `from` on, as a new string.
pub fn substring(p: &str, from: usize, to: usize) -> (r: String)
    requires
        from <= to <= p@.len(),
    ensures
        r@ == p@.subrange(from as int, to as int),
{
    String::from_str(p.substring_char(from, to))
}

/// `s` without its last character when that is `c`.
pub open spec fn drop_last_if(s: Seq<char>, c: char) -> Seq<char> {
    if s.len() > 0 && s.last() == c {
        s.drop_last()
    } else {
        s
    }
}

/// `s` without its first character when that is `c`.
pub open spec fn drop_first_if(s: Seq<char>, c: char) -> Seq<char> {
    if s.len() > 0 && s[0] == c {
        s.drop_first()
    } else {
        s
    }
}

/// A line typed at a prompt, cleaned: a final line feed, then a carriage
/// return, then a closing quote, then a space are dropped from the end, and an
/// opening quote from the start (a path dragged into a macOS terminal comes
/// quoted).
pub open spec fn cleaned(s: Seq<char>) -> Seq<char> {
    drop_first_if(
        drop_last_if(drop_last_if(drop_last_if(drop_last_if(s, '\n'), '\r'), '\''), ' '),
        '\'',
    )
}

/// Cleans a line typed at a prompt (see `cleaned`).
pub fn clean_input(input: String) -> (r: String)
    ensures
        r@ == cleaned(input@),
{
    let s = input.as_str();
    let mut end = s.unicode_len();
    let ghost s0 = s@;
    if end > 0 && s.get_char(end - 1) == '\n' {
        end = end - 1;
    }
    let ghost s1 = drop_last_if(s0, '\n');
    assert(s1 =~= s@.subrange(0, end as int));
    if end > 0 && s.get_char(end - 1) == '\r' {
        end = end - 1;
    }
    let ghost s2 = drop_last_if(s1, '\r');
    assert(s2 =~= s@.subrange(0, end as int));
    if end > 0 && s.get_char(end - 1) == '\'' {
        end = end - 1;
    }
    let ghost s3 = drop_last_if(s2, '\'');
    assert(s3 =~= s@.subrange(0, end as int));
    if end > 0 && s.get_char(end - 1) == ' ' {
        end = end - 1;
    }
    let ghost s4 = drop_last_if(s3, ' ');
    assert(s4 =~= s@.subrange(0, end as int));
    let mut start: usize = 0;
    if end > 0 && s.get_char(0) == '\'' {
        start = 1;
    }
    assert(drop_first_if(s4, '\'') =~= s@.subrange(start as int, end as int));
    substring(s, start, end)
}

/// `x` joined to the front of the first piece of `r`.
pub open spec fn prepend_piece(x: Seq<char>, r: Seq<Seq<char>>) -> Seq<Seq<char>> {
    r.update(0, x + r[0])
}

/// The pieces of `s` between occurrences of `c` (one piece more than there
/// are occurrences).
pub open spec fn split_on(s: Seq<char>, c: char) -> Seq<Seq<char>>
    decreases s.len(),
{
    if s.len() == 0 {
        seq![Seq::<char>::empty()]
    } else {
        let rest = split_on(s.drop_first(), c);
        if s[0] == c {
            seq![Seq::<char>::empty()] + rest
        } else {
            prepend_piece(seq![s[0]], rest)
        }
    }
}

/// Splitting always gives at least one piece.
pub proof fn lemma_split_nonempty(s: Seq<char>, c: char)
    ensures
        split_on(s, c).len() >= 1,
    decreases s.len(),
{
    if s.len() > 0 {
        lemma_split_nonempty(s.drop_first(), c);
    }
}

/// The views of a vector of strings.
pub open spec fn string_views(v: Seq<String>) -> Seq<Seq<char>> {
    v.map_values(|p: String| p@)
}

/// Splits `s` at every `c`.
pub fn split_str(s: &str, c: char) -> (r: Vec<String>)
    ensures
        string_views(r@) == split_on(s@, c),
{
    let n = s.unicode_len();
    let mut pieces: Vec<String> = Vec::new();
    let mut start: usize = 0;
    let mut i: usize = 0;
    assert(s@.skip(0) =~= s@);
    assert(prepend_piece(Seq::<char>::empty(), split_on(s@, c)) =~= split_on(s@, c)) by {
        lemma_split_nonempty(s@, c);
    }
    while i < n
        invariant
            n == s@.len(),
            start <= i <= n,
            split_on(s@, c) == string_views(pieces@) + prepend_piece(
                s@.subrange(start as int, i as int),
                split_on(s@.skip(i as int), c),
            ),
        decreases n - i,
    {
        let ch = s.get_char(i);
        let ghost x = s@.subrange(start as int, i as int);
        let ghost rest = split_on(s@.skip(i + 1), c);
        proof {
            assert(s@.skip(i as int).drop_first() =~= s@.skip(i + 1));
            lemma_split_nonempty(s@.skip(i + 1), c);
        }
        if ch == c {
            let piece = substring(s, start, i);
            let ghost before = pieces@;
            pieces.push(piece);
            start = i + 1;
            i = i + 1;
            proof {
                assert(string_views(pieces@) =~= string_views(before).push(x));
                assert(s@.subrange(start as int, i as int) =~= Seq::<char>::empty());
                assert(prepend_piece(x, seq![Seq::<char>::empty()] + rest) =~= seq![x] + rest);
                assert(prepend_piece(Seq::<char>::empty(), rest) =~= rest);
                assert(string_views(before) + (seq![x] + rest) =~= string_views(before).push(x)
                    + rest);
            }
        } else {
            i = i + 1;
            proof {
                assert(s@.subrange(start as int, i as int) =~= x + seq![ch]);
                assert(x + (seq![ch] + rest[0]) =~= (x + seq![ch]) + rest[0]);
                assert(prepend_piece(x, prepend_piece(seq![ch], rest)) =~= prepend_piece(
                    x + seq![ch],
                    rest,
                ));
            }
        }
    }
    let piece = substring(s, start, n);
    let ghost before = pieces@;
    pieces.push(piece);
    proof {
        assert(s@.skip(n as int) =~= Seq::<char>::empty());
        assert(prepend_piece(piece@, seq![Seq::<char>::empty()]) =~= seq![piece@]);
        assert(string_views(pieces@) =~= string_views(before).push(piece@));
        assert(string_views(before) + seq![piece@] =~= string_views(before).push(piece@));
    }
    pieces
}

} // verus!
