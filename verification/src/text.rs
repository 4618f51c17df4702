//! Character-level utilities: whitespace trimming, prefix tests, searching,
//! and splitting a string into lines, each with a specification-level
//! definition and an executable counterpart proved against it.

use vstd::prelude::*;

verus! {

/// ASCII whitespace, the characters the scanner strips around markers.
pub open spec fn is_space(c: char) -> bool {
    c == ' ' || c == '\t' || c == '\n' || c == '\r' || c == '\x0c'
}

/// Executable mirror of [`is_space`].
pub fn is_space_char(c: char) -> (r: bool)
    ensures
        r == is_space(c),
{
    c == ' ' || c == '\t' || c == '\n' || c == '\r' || c == '\x0c'
}

/// The sequence with its leading whitespace removed.
pub open spec fn trim_front(s: Seq<char>) -> Seq<char>
    decreases s.len(),
{
    if s.len() > 0 && is_space(s[0]) {
        trim_front(s.skip(1))
    } else {
        s
    }
}

/// The sequence with its trailing whitespace removed.
pub open spec fn trim_back(s: Seq<char>) -> Seq<char>
    decreases s.len(),
{
    if s.len() > 0 && is_space(s[s.len() - 1]) {
        trim_back(s.take(s.len() - 1))
    } else {
        s
    }
}

/// The sequence with whitespace removed at both ends.
pub open spec fn trim_both(s: Seq<char>) -> Seq<char> {
    trim_back(trim_front(s))
}

/// `p` is an initial segment of `s`.
pub open spec fn has_prefix(s: Seq<char>, p: Seq<char>) -> bool {
    p.len() <= s.len() && s.take(p.len() as int) == p
}

/// Trimming in front removes exactly the chars before the first one that is
/// not whitespace.
pub proof fn lemma_trim_front_at(s: Seq<char>, k: int)
    requires
        0 <= k <= s.len(),
        forall|i: int| 0 <= i < k ==> is_space(s[i]),
        k < s.len() ==> !is_space(s[k]),
    ensures
        trim_front(s) == s.skip(k),
    decreases k,
{
    if k == 0 {
        assert(s.skip(0) =~= s);
    } else {
        lemma_trim_front_at(s.skip(1), k - 1);
        assert(s.skip(1).skip(k - 1) =~= s.skip(k));
    }
}

/// Trimming in back removes exactly the chars after the last one that is not
/// whitespace.
pub proof fn lemma_trim_back_at(s: Seq<char>, k: int)
    requires
        0 <= k <= s.len(),
        forall|i: int| k <= i < s.len() ==> is_space(s[i]),
        k > 0 ==> !is_space(s[k - 1]),
    ensures
        trim_back(s) == s.take(k),
    decreases s.len(),
{
    if k == s.len() {
        assert(s.take(k) =~= s);
    } else {
        lemma_trim_back_at(s.take(s.len() - 1), k);
        assert(s.take(s.len() - 1).take(k) =~= s.take(k));
    }
}

/// Index of the last occurrence of `c` in `s`, or `-1` if there is none.
pub open spec fn last_index_of(s: Seq<char>, c: char) -> int
    decreases s.len(),
{
    if s.len() == 0 {
        -1
    } else if s[s.len() - 1] == c {
        s.len() - 1
    } else {
        last_index_of(s.take(s.len() - 1), c)
    }
}

/// The last occurrence of `c` is the position after which `c` never occurs.
pub proof fn lemma_last_index_at(s: Seq<char>, c: char, k: int)
    requires
        k == -1 ==> forall|j: int| 0 <= j < s.len() ==> s[j] != c,
        k != -1 ==> 0 <= k < s.len() && s[k] == c && forall|j: int| k < j < s.len() ==> s[j] != c,
    ensures
        last_index_of(s, c) == k,
    decreases s.len(),
{
    if s.len() == 0 {
    } else if s[s.len() - 1] == c {
        assert(k == s.len() - 1);
    } else {
        lemma_last_index_at(s.take(s.len() - 1), c, k);
    }
}

/// Index of the first line break in `s`, or `s.len()` if there is none.
pub open spec fn line_break(s: Seq<char>) -> int
    decreases s.len(),
{
    if s.len() == 0 {
        0
    } else if s[0] == '\n' {
        0
    } else {
        1 + line_break(s.skip(1))
    }
}

pub proof fn lemma_line_break_bounds(s: Seq<char>)
    ensures
        0 <= line_break(s) <= s.len(),
    decreases s.len(),
{
    if s.len() > 0 && s[0] != '\n' {
        lemma_line_break_bounds(s.skip(1));
    }
}

/// The first line break is the position up to which no line break occurs.
pub proof fn lemma_line_break_at(s: Seq<char>, k: int)
    requires
        0 <= k <= s.len(),
        forall|i: int| 0 <= i < k ==> s[i] != '\n',
        k < s.len() ==> s[k] == '\n',
    ensures
        line_break(s) == k,
    decreases k,
{
    if s.len() == 0 {
    } else if k == 0 {
    } else {
        lemma_line_break_at(s.skip(1), k - 1);
    }
}

/// A line with its terminating carriage return removed, if it carries one.
pub open spec fn strip_cr(l: Seq<char>) -> Seq<char> {
    if l.len() > 0 && l[l.len() - 1] == '\r' {
        l.take(l.len() - 1)
    } else {
        l
    }
}

/// The lines of `s`: split at each line break, dropping the break itself and
/// a carriage return just before it.  A last line without a terminating break
/// is kept as it stands; a terminating break adds no empty last line.
pub open spec fn split_lines(s: Seq<char>) -> Seq<Seq<char>>
    decreases s.len(),
    via split_lines_decreases
{
    if s.len() == 0 {
        Seq::empty()
    } else {
        let b: int = line_break(s);
        if b == s.len() {
            seq![s]
        } else {
            seq![strip_cr(s.take(b))] + split_lines(s.skip(b + 1))
        }
    }
}

#[via_fn]
proof fn split_lines_decreases(s: Seq<char>) {
    lemma_line_break_bounds(s);
}

/// The views of a sequence of owned strings.
pub open spec fn views_of(v: Seq<String>) -> Seq<Seq<char>> {
    v.map_values(|x: String| x@)
}

/// Whether the region `[from, to)` of `s` begins with `p`.
pub fn region_has_prefix(s: &str, from: usize, to: usize, p: &str) -> (r: bool)
    requires
        from <= to <= s@.len(),
    ensures
        r == has_prefix(s@.subrange(from as int, to as int), p@),
{
    let plen: usize = p.unicode_len();
    if to - from < plen {
        return false;
    }
    let mut j: usize = 0;
    while j < plen
        invariant
            0 <= j <= plen,
            plen == p@.len(),
            from <= to <= s@.len(),
            plen <= to - from,
            forall|i: int| 0 <= i < j ==> s@[from + i] == p@[i],
        decreases plen - j,
    {
        if s.get_char(from + j) != p.get_char(j) {
            proof {
                let region = s@.subrange(from as int, to as int);
                if region.take(plen as int) == p@ {
                    assert(region.take(plen as int)[j as int] == p@[j as int]);
                    assert(false);
                }
            }
            return false;
        }
        j += 1;
    }
    proof {
        let region = s@.subrange(from as int, to as int);
        assert(region.take(plen as int) =~= p@);
    }
    true
}

/// Whether the region `[from, to)` of `s` equals `p`.
pub fn region_eq(s: &str, from: usize, to: usize, p: &str) -> (r: bool)
    requires
        from <= to <= s@.len(),
    ensures
        r == (s@.subrange(from as int, to as int) == p@),
{
    let plen: usize = p.unicode_len();
    if to - from != plen {
        proof {
            if s@.subrange(from as int, to as int) == p@ {
                assert(false);
            }
        }
        return false;
    }
    let r = region_has_prefix(s, from, to, p);
    proof {
        assert(s@.subrange(from as int, to as int).take(plen as int) =~= s@.subrange(
            from as int,
            to as int,
        ));
    }
    r
}

/// Index of the first char at or after `from` that is not whitespace, or the
/// length of `s` if all of them are.
pub fn first_unspaced(s: &str, from: usize) -> (i: usize)
    requires
        from <= s@.len(),
    ensures
        from <= i <= s@.len(),
        forall|j: int| from <= j < i ==> is_space(s@[j]),
        i < s@.len() ==> !is_space(s@[i as int]),
{
    let n: usize = s.unicode_len();
    let mut i: usize = from;
    while i < n
        invariant
            from <= i <= n,
            n == s@.len(),
            forall|j: int| from <= j < i ==> is_space(s@[j]),
        decreases n - i,
    {
        if !is_space_char(s.get_char(i)) {
            return i;
        }
        i += 1;
    }
    i
}

/// Bound of the trailing whitespace of the region `[from, to)` of `s`: the
/// position after its last char that is not whitespace, or `from` if all of
/// them are.
pub fn last_unspaced(s: &str, from: usize, to: usize) -> (k: usize)
    requires
        from <= to <= s@.len(),
    ensures
        from <= k <= to,
        forall|j: int| k <= j < to ==> is_space(s@[j]),
        k > from ==> !is_space(s@[k - 1]),
{
    let mut k: usize = to;
    while k > from
        invariant
            from <= k <= to,
            to <= s@.len(),
            forall|j: int| k <= j < to ==> is_space(s@[j]),
        decreases k,
    {
        if !is_space_char(s.get_char(k - 1)) {
            return k;
        }
        k -= 1;
    }
    k
}

/// Index of the first line break at or after `from`, or the length of `s` if
/// there is none.
pub fn find_line_break(s: &str, from: usize) -> (j: usize)
    requires
        from <= s@.len(),
    ensures
        from <= j <= s@.len(),
        forall|k: int| from <= k < j ==> s@[k] != '\n',
        j < s@.len() ==> s@[j as int] == '\n',
{
    let n: usize = s.unicode_len();
    let mut j: usize = from;
    while j < n
        invariant
            from <= j <= n,
            n == s@.len(),
            forall|k: int| from <= k < j ==> s@[k] != '\n',
        decreases n - j,
    {
        if s.get_char(j) == '\n' {
            return j;
        }
        j += 1;
    }
    j
}

/// Index of the last occurrence of `c` in `s`, if any.
pub fn rfind_char(s: &str, c: char) -> (r: Option<usize>)
    ensures
        match r {
            Some(i) => i == last_index_of(s@, c) && 0 <= i < s@.len(),
            None => last_index_of(s@, c) == -1,
        },
{
    let n: usize = s.unicode_len();
    let mut k: usize = n;
    while k > 0
        invariant
            0 <= k <= n,
            n == s@.len(),
            forall|j: int| k <= j < n ==> s@[j] != c,
        decreases k,
    {
        if s.get_char(k - 1) == c {
            proof {
                lemma_last_index_at(s@, c, k - 1);
            }
            return Some(k - 1);
        }
        k -= 1;
    }
    proof {
        lemma_last_index_at(s@, c, -1);
    }
    None
}

/// The lines of `s`, as owned strings.
pub fn split_lines_exec(s: &str) -> (v: Vec<String>)
    ensures
        views_of(v@) == split_lines(s@),
{
    let n: usize = s.unicode_len();
    let mut v: Vec<String> = Vec::new();
    let mut i: usize = 0;
    proof {
        assert(s@.skip(0) =~= s@);
        assert(views_of(v@) =~= Seq::<Seq<char>>::empty());
    }
    while i < n
        invariant
            0 <= i <= n,
            n == s@.len(),
            split_lines(s@) == views_of(v@) + split_lines(s@.skip(i as int)),
        decreases n - i,
    {
        let ghost rem = s@.skip(i as int);
        let j = find_line_break(s, i);
        proof {
            assert forall|k: int| 0 <= k < j - i implies rem[k] != '\n' by {
                assert(rem[k] == s@[i + k]);
            }
            lemma_line_break_at(rem, j - i);
        }
        if j < n {
            let end: usize = if j > i && s.get_char(j - 1) == '\r' {
                j - 1
            } else {
                j
            };
            let line = s.substring_char(i, end).to_owned();
            proof {
                assert(rem.take(j - i) =~= s@.subrange(i as int, j as int));
                if j > i && s@[j - 1] == '\r' {
                    assert(rem.take(j - i).take(j - i - 1) =~= s@.subrange(i as int, j - 1));
                    assert(strip_cr(rem.take(j - i)) == s@.subrange(i as int, end as int));
                } else {
                    assert(strip_cr(rem.take(j - i)) == s@.subrange(i as int, end as int));
                }
                assert(split_lines(rem) == seq![line@] + split_lines(rem.skip(j - i + 1)));
                assert(rem.skip(j - i + 1) =~= s@.skip(j + 1));
                assert(views_of(v@.push(line)) =~= views_of(v@).push(line@));
                assert(views_of(v@) + split_lines(rem) =~= views_of(v@).push(line@) + split_lines(
                    s@.skip(j + 1),
                ));
            }
            v.push(line);
            i = j + 1;
        } else {
            let line = s.substring_char(i, n).to_owned();
            proof {
                assert(line@ =~= rem);
                assert(split_lines(rem) == seq![rem]);
                assert(views_of(v@.push(line)) =~= views_of(v@).push(line@));
                assert(s@.skip(n as int).len() == 0);
                assert(views_of(v@) + split_lines(rem) =~= views_of(v@).push(line@)
                    + split_lines(s@.skip(n as int)));
            }
            v.push(line);
            i = n;
        }
    }
    proof {
        assert(s@.skip(n as int).len() == 0);
        assert(views_of(v@) + split_lines(s@.skip(n as int)) =~= views_of(v@));
    }
    v
}

} // verus!
