//! Conversions between strings and character vectors, and searching,
//! splitting and joining of texts.

use vstd::prelude::*;
use vstd::string::StringExecFns;

verus! {

/// `String::push` appends one character to the end of the string.
pub assume_specification[ String::push ](s: &mut String, c: char)
    ensures
        final(s)@ == old(s)@.push(c),
;

/// The characters of `s`, in order.
pub fn chars_of(s: &str) -> (v: Vec<char>)
    ensures
        v@ == s@,
{
    let mut v: Vec<char> = Vec::new();
    for c in it: s.chars()
        invariant
            it.seq() == s@,
            v@ == s@.take(it.index() as int),
    {
        v.push(c);
    }
    v
}

/// The string made of the characters of `v`, in order.
pub fn string_of(v: &Vec<char>) -> (s: String)
    ensures
        s@ == v@,
{
    let mut s = String::new();
    let mut i: usize = 0;
    while i < v.len()
        invariant
            i <= v.len(),
            s@ == v@.take(i as int),
        decreases v.len() - i,
    {
        s.push(v[i]);
        i += 1;
    }
    s
}

/// `m` stands in `s` at position `i`.
pub open spec fn occurs_at(s: Seq<char>, m: Seq<char>, i: int) -> bool {
    0 <= i && i + m.len() <= s.len() && s.subrange(i, i + m.len()) == m
}

/// `m` stands somewhere in `s`.
pub open spec fn contains_seq(s: Seq<char>, m: Seq<char>) -> bool {
    exists|i: int| occurs_at(s, m, i)
}

/// The position of the first `c` in `s`, or `s.len()` where there is none.
pub open spec fn first_index(s: Seq<char>, c: char) -> int
    decreases s.len(),
{
    if s.len() == 0 {
        0
    } else if s[0] == c {
        0
    } else {
        1 + first_index(s.drop_first(), c)
    }
}

/// `first_index` is the one position before which no `c` stands and at
/// which one does, or the end.
pub proof fn lemma_first_index(s: Seq<char>, c: char, n: int)
    requires
        0 <= n <= s.len(),
        forall|k: int| 0 <= k < n ==> s[k] != c,
        n < s.len() ==> s[n] == c,
    ensures
        first_index(s, c) == n,
    decreases s.len(),
{
    if s.len() != 0 && n != 0 {
        let t = s.drop_first();
        assert forall|k: int| 0 <= k < n - 1 implies t[k] != c by {
            assert(t[k] == s[k + 1]);
        }
        lemma_first_index(t, c, n - 1);
    }
}

/// What `lemma_first_index` asks holds of `first_index` itself.
pub proof fn lemma_first_index_bounds(s: Seq<char>, c: char)
    ensures
        0 <= first_index(s, c) <= s.len(),
        forall|k: int| 0 <= k < first_index(s, c) ==> s[k] != c,
        first_index(s, c) < s.len() ==> s[first_index(s, c)] == c,
    decreases s.len(),
{
    if s.len() != 0 && s[0] != c {
        let t = s.drop_first();
        lemma_first_index_bounds(t, c);
        assert forall|k: int| 0 <= k < first_index(s, c) implies s[k] != c by {
            if k > 0 {
                assert(s[k] == t[k - 1]);
            }
        }
    }
}

/// The pieces of `s` between the occurrences of `sep`; never empty.
pub open spec fn split_on(s: Seq<char>, sep: char) -> Seq<Seq<char>>
    decreases s.len(),
{
    let i = first_index(s, sep);
    if 0 <= i && i < s.len() {
        seq![s.take(i)] + split_on(s.skip(i + 1), sep)
    } else {
        seq![s]
    }
}

/// The texts of the strings of `v`, in order.
pub open spec fn texts(v: Seq<String>) -> Seq<Seq<char>> {
    Seq::new(v.len(), |i: int| v[i]@)
}

/// The views of the vectors of `v`, in order.
pub open spec fn views(v: Seq<Vec<char>>) -> Seq<Seq<char>> {
    Seq::new(v.len(), |i: int| v[i]@)
}

/// Whether `m` stands in `s` at position `i`.
pub fn matches_at(s: &Vec<char>, m: &Vec<char>, i: usize) -> (b: bool)
    ensures
        b == occurs_at(s@, m@, i as int),
{
    if m.len() > s.len() || i > s.len() - m.len() {
        return false;
    }
    let mut k: usize = 0;
    while k < m.len()
        invariant
            k <= m.len(),
            i + m.len() <= s.len(),
            forall|j: int| 0 <= j < k ==> s@[i + j] == m@[j],
        decreases m.len() - k,
    {
        if s[i + k] != m[k] {
            proof {
                let sub = s@.subrange(i as int, i + m.len());
                assert(sub[k as int] == s@[i + k]);
            }
            return false;
        }
        k += 1;
    }
    assert(s@.subrange(i as int, i + m.len()) =~= m@);
    true
}

/// Whether `s` begins with `m`.
pub fn starts_with(s: &Vec<char>, m: &Vec<char>) -> (b: bool)
    ensures
        b == occurs_at(s@, m@, 0),
{
    matches_at(s, m, 0)
}

/// Whether `m` stands somewhere in `s`.
pub fn contains(s: &Vec<char>, m: &Vec<char>) -> (b: bool)
    ensures
        b == contains_seq(s@, m@),
{
    if m.len() > s.len() {
        return false;
    }
    let last: usize = s.len() - m.len();
    let mut i: usize = 0;
    loop
        invariant
            i <= last,
            last == s.len() - m.len(),
            forall|j: int| 0 <= j < i ==> !occurs_at(s@, m@, j),
        decreases last - i,
    {
        if matches_at(s, m, i) {
            return true;
        }
        if i == last {
            return false;
        }
        i += 1;
    }
}

/// The pieces of `s` between the occurrences of `sep`.
pub fn split(s: &Vec<char>, sep: char) -> (parts: Vec<Vec<char>>)
    ensures
        views(parts@) == split_on(s@, sep),
        parts.len() >= 1,
{
    let mut parts: Vec<Vec<char>> = Vec::new();
    let mut cur: Vec<char> = Vec::new();
    let mut start: usize = 0;
    let mut j: usize = 0;
    assert(views(parts@) + split_on(s@.skip(0), sep) =~= split_on(s@, sep)) by {
        assert(s@.skip(0) =~= s@);
    }
    while j < s.len()
        invariant
            start <= j <= s.len(),
            cur@ == s@.subrange(start as int, j as int),
            forall|k: int| start <= k < j ==> s@[k] != sep,
            split_on(s@, sep) == views(parts@) + split_on(s@.skip(start as int), sep),
        decreases s.len() - j,
    {
        if s[j] == sep {
            proof {
                let t = s@.skip(start as int);
                lemma_first_index(t, sep, j - start);
                assert(t.take(j - start) =~= cur@);
                assert(t.skip(j - start + 1) =~= s@.skip(j + 1));
                assert(views(parts@.push(cur)) =~= views(parts@) + seq![cur@]);
            }
            parts.push(cur);
            cur = Vec::new();
            start = j + 1;
        } else {
            cur.push(s[j]);
        }
        j += 1;
    }
    proof {
        let t = s@.skip(start as int);
        lemma_first_index(t, sep, t.len() as int);
        assert(t =~= cur@);
        assert(views(parts@.push(cur)) =~= views(parts@) + seq![cur@]);
    }
    parts.push(cur);
    parts
}

/// No `c` stands in `s` at the positions from `from` up to `to`.
pub open spec fn free_of(s: Seq<char>, c: char, from: int, to: int) -> bool
    decreases to - from,
{
    from >= to || (s[from] != c && free_of(s, c, from + 1, to))
}

/// `free_of` read position by position.
pub proof fn lemma_free_of(s: Seq<char>, c: char, from: int, to: int)
    requires
        free_of(s, c, from, to),
    ensures
        forall|k: int| from <= k < to ==> s[k] != c,
    decreases to - from,
{
    if from < to {
        lemma_free_of(s, c, from + 1, to);
    }
}

/// No piece of a split holds the separator.
pub proof fn lemma_split_pieces(s: Seq<char>, sep: char)
    ensures
        split_on(s, sep).len() >= 1,
        forall|i: int, k: int|
            0 <= i < split_on(s, sep).len() && 0 <= k < split_on(s, sep)[i].len() ==> split_on(
                s,
                sep,
            )[i][k] != sep,
    decreases s.len(),
{
    let n = first_index(s, sep);
    lemma_first_index_bounds(s, sep);
    if 0 <= n && n < s.len() {
        let rest = s.skip(n + 1);
        lemma_split_pieces(rest, sep);
        let all = split_on(s, sep);
        assert forall|i: int, k: int| 0 <= i < all.len() && 0 <= k < all[i].len() implies all[i][k]
            != sep by {
            if i > 0 {
                assert(all[i] == split_on(rest, sep)[i - 1]);
            }
        }
    }
}

/// Appends the characters of `src` to `dst`.
pub fn append_chars(dst: &mut Vec<char>, src: &Vec<char>)
    ensures
        final(dst)@ == old(dst)@ + src@,
{
    let ghost before = dst@;
    let mut i: usize = 0;
    while i < src.len()
        invariant
            i <= src.len(),
            dst@ == before + src@.take(i as int),
        decreases src.len() - i,
    {
        dst.push(src[i]);
        i += 1;
        assert(dst@ =~= before + src@.take(i as int));
    }
    assert(src@.take(src.len() as int) =~= src@);
}

/// The lines of `lines` with `sep` between each two.
pub open spec fn join_with(lines: Seq<Seq<char>>, sep: Seq<char>) -> Seq<char>
    decreases lines.len(),
{
    if lines.len() == 0 {
        Seq::empty()
    } else if lines.len() == 1 {
        lines[0]
    } else {
        join_with(lines.drop_last(), sep) + sep + lines.last()
    }
}

/// The strings of `lines` with `sep` between each two.
pub fn join(lines: &Vec<String>, sep: &str) -> (joined: String)
    ensures
        joined@ == join_with(texts(lines@), sep@),
{
    let ghost all = texts(lines@);
    let mut joined = String::new();
    let mut i: usize = 0;
    assert(all.take(0) =~= Seq::<Seq<char>>::empty());
    while i < lines.len()
        invariant
            i <= lines.len(),
            all == texts(lines@),
            joined@ == join_with(all.take(i as int), sep@),
        decreases lines.len() - i,
    {
        let ghost before = joined@;
        if i > 0 {
            joined.append(sep);
        }
        joined.append(lines[i].as_str());
        proof {
            let next = all.take(i + 1);
            assert(next.drop_last() =~= all.take(i as int));
            assert(next.last() == lines@[i as int]@);
            if i == 0 {
                assert(joined@ =~= next[0]);
            }
        }
        i += 1;
    }
    assert(all.take(i as int) =~= all);
    joined
}

/// `s` without one carriage return at its end.
pub open spec fn without_return(s: Seq<char>) -> Seq<char> {
    if s.len() > 0 && s.last() == '\r' {
        s.drop_last()
    } else {
        s
    }
}

/// The lines of a text. A line ends at a line feed, or at a carriage return
/// and a line feed, which do not belong to it; what stands behind the last
/// line feed is a line unless it is empty.
pub open spec fn text_lines(s: Seq<char>) -> Seq<Seq<char>>
    decreases s.len(),
{
    if s.len() == 0 {
        Seq::empty()
    } else {
        let i = first_index(s, '\n');
        if 0 <= i && i < s.len() {
            seq![without_return(s.take(i))] + text_lines(s.skip(i + 1))
        } else {
            seq![s]
        }
    }
}

/// The lines of a text.
pub fn lines(s: &Vec<char>) -> (found: Vec<Vec<char>>)
    ensures
        views(found@) == text_lines(s@),
{
    let mut found: Vec<Vec<char>> = Vec::new();
    let mut cur: Vec<char> = Vec::new();
    let mut start: usize = 0;
    let mut j: usize = 0;
    assert(views(found@) + text_lines(s@.skip(0)) =~= text_lines(s@)) by {
        assert(s@.skip(0) =~= s@);
    }
    while j < s.len()
        invariant
            start <= j <= s.len(),
            cur@ == s@.subrange(start as int, j as int),
            forall|k: int| start <= k < j ==> s@[k] != '\n',
            text_lines(s@) == views(found@) + text_lines(s@.skip(start as int)),
        decreases s.len() - j,
    {
        if s[j] == '\n' {
            let ghost whole = cur@;
            if cur.len() > 0 && cur[cur.len() - 1] == '\r' {
                cur.pop();
            }
            proof {
                let t = s@.skip(start as int);
                lemma_first_index(t, '\n', j - start);
                assert(t.take(j - start) =~= whole);
                assert(cur@ =~= without_return(whole));
                assert(t.skip(j - start + 1) =~= s@.skip(j + 1));
                assert(views(found@.push(cur)) =~= views(found@) + seq![cur@]);
            }
            found.push(cur);
            cur = Vec::new();
            start = j + 1;
        } else {
            cur.push(s[j]);
        }
        j += 1;
    }
    if cur.len() > 0 {
        proof {
            let t = s@.skip(start as int);
            lemma_first_index(t, '\n', t.len() as int);
            assert(t =~= cur@);
            assert(views(found@.push(cur)) =~= views(found@) + seq![cur@]);
        }
        found.push(cur);
    } else {
        assert(s@.skip(start as int).len() == 0);
        assert(views(found@) + Seq::<Seq<char>>::empty() =~= views(found@));
    }
    found
}

/// The part of `s` from `from` up to `to`.
pub fn slice_of(s: &Vec<char>, from: usize, to: usize) -> (part: Vec<char>)
    requires
        from <= to <= s.len(),
    ensures
        part@ == s@.subrange(from as int, to as int),
{
    let mut part: Vec<char> = Vec::new();
    let mut i: usize = from;
    while i < to
        invariant
            from <= i <= to,
            to <= s.len(),
            part@ == s@.subrange(from as int, i as int),
        decreases to - i,
    {
        part.push(s[i]);
        i += 1;
        assert(part@ =~= s@.subrange(from as int, i as int));
    }
    part
}

/// The lines of a text with their line ends: each piece reaches up to and
/// with a line feed, but for the last, which reaches to the end of the text
/// where no line feed stands there. No piece is empty.
pub open spec fn line_pieces(s: Seq<char>) -> Seq<Seq<char>>
    decreases s.len(),
{
    if s.len() == 0 {
        Seq::empty()
    } else {
        let i = first_index(s, '\n');
        if 0 <= i && i < s.len() {
            seq![s.take(i + 1)] + line_pieces(s.skip(i + 1))
        } else {
            seq![s]
        }
    }
}

/// The texts of `parts`, one behind the other.
pub open spec fn concat_all(parts: Seq<Seq<char>>) -> Seq<char>
    decreases parts.len(),
{
    if parts.len() == 0 {
        Seq::empty()
    } else {
        parts[0] + concat_all(parts.drop_first())
    }
}

/// The pieces of a text, one behind the other, are the text.
pub proof fn lemma_line_pieces_concat(s: Seq<char>)
    ensures
        concat_all(line_pieces(s)) == s,
    decreases s.len(),
{
    if s.len() == 0 {
        assert(concat_all(line_pieces(s)) =~= s);
    } else {
        let i = first_index(s, '\n');
        lemma_first_index_bounds(s, '\n');
        if 0 <= i && i < s.len() {
            let rest = line_pieces(s.skip(i + 1));
            lemma_line_pieces_concat(s.skip(i + 1));
            let all = seq![s.take(i + 1)] + rest;
            assert(line_pieces(s) == all);
            assert(all[0] == s.take(i + 1));
            assert(all.drop_first() =~= rest);
            assert(concat_all(all) == all[0] + concat_all(all.drop_first()));
            assert(s.take(i + 1) + s.skip(i + 1) =~= s);
        } else {
            let all = seq![s];
            assert(line_pieces(s) == all);
            assert(all.drop_first() =~= Seq::<Seq<char>>::empty());
            assert(concat_all(all) == all[0] + concat_all(all.drop_first()));
            assert(concat_all(Seq::<Seq<char>>::empty()) =~= Seq::<char>::empty());
            assert(s + Seq::<char>::empty() =~= s);
        }
    }
}

/// Texts put one behind the other: what the first ones give, then what the
/// others give.
pub proof fn lemma_concat_all_split(a: Seq<Seq<char>>, b: Seq<Seq<char>>)
    ensures
        concat_all(a + b) == concat_all(a) + concat_all(b),
    decreases a.len(),
{
    if a.len() == 0 {
        assert(a + b =~= b);
        assert(concat_all(a) + concat_all(b) =~= concat_all(b));
    } else {
        lemma_concat_all_split(a.drop_first(), b);
        assert((a + b).drop_first() =~= a.drop_first() + b);
        assert(a[0] + (concat_all(a.drop_first()) + concat_all(b)) =~= a[0] + concat_all(
            a.drop_first(),
        ) + concat_all(b));
    }
}

/// The line that a piece holds: the piece without its line feed and the
/// carriage return before it.
pub open spec fn line_of(piece: Seq<char>) -> Seq<char> {
    if piece.len() > 0 && piece.last() == '\n' {
        without_return(piece.drop_last())
    } else {
        piece
    }
}

/// The lines of a text with their line ends.
pub fn pieces(s: &Vec<char>) -> (found: Vec<Vec<char>>)
    ensures
        views(found@) == line_pieces(s@),
{
    let mut found: Vec<Vec<char>> = Vec::new();
    let mut cur: Vec<char> = Vec::new();
    let mut start: usize = 0;
    let mut j: usize = 0;
    assert(views(found@) + line_pieces(s@.skip(0)) =~= line_pieces(s@)) by {
        assert(s@.skip(0) =~= s@);
    }
    while j < s.len()
        invariant
            start <= j <= s.len(),
            cur@ == s@.subrange(start as int, j as int),
            forall|k: int| start <= k < j ==> s@[k] != '\n',
            line_pieces(s@) == views(found@) + line_pieces(s@.skip(start as int)),
        decreases s.len() - j,
    {
        cur.push(s[j]);
        if s[j] == '\n' {
            proof {
                let t = s@.skip(start as int);
                lemma_first_index(t, '\n', j - start);
                assert(t.take(j - start + 1) =~= cur@);
                assert(t.skip(j - start + 1) =~= s@.skip(j + 1));
                assert(views(found@.push(cur)) =~= views(found@) + seq![cur@]);
            }
            found.push(cur);
            cur = Vec::new();
            start = j + 1;
        }
        j += 1;
    }
    if cur.len() > 0 {
        proof {
            let t = s@.skip(start as int);
            lemma_first_index(t, '\n', t.len() as int);
            assert(t =~= cur@);
            assert(views(found@.push(cur)) =~= views(found@) + seq![cur@]);
        }
        found.push(cur);
    } else {
        assert(s@.skip(start as int).len() == 0);
        assert(views(found@) + Seq::<Seq<char>>::empty() =~= views(found@));
    }
    found
}

} // verus!
