//! Character-level string helpers shared by the other modules.
use vstd::prelude::*;

verus! {

/// Whether `t` is non-empty and starts with the character `c`.
pub open spec fn starts_with_char(t: Seq<char>, c: char) -> bool {
    t.len() > 0 && t[0] == c
}

/// The characters of `s`, one per element.
pub fn chars_of(s: &str) -> (r: Vec<char>)
    ensures
        r@ == s@,
{
    let n = s.unicode_len();
    let mut r: Vec<char> = Vec::new();
    let mut i: usize = 0;
    while i < n
        invariant
            n == s@.len(),
            i <= n,
            r@ == s@.subrange(0, i as int),
        decreases n - i,
    {
        r.push(s.get_char(i));
        i = i + 1;
    }
    assert(r@ =~= s@);
    r
}

/// Whether `a` and `b` hold the same characters.
pub fn str_eq(a: &str, b: &str) -> (r: bool)
    ensures
        r == (a@ == b@),
{
    let x = chars_of(a);
    let y = chars_of(b);
    if x.len() != y.len() {
        return false;
    }
    let mut i: usize = 0;
    while i < x.len()
        invariant
            x@ == a@,
            y@ == b@,
            x@.len() == y@.len(),
            i <= x@.len(),
            forall|j: int| 0 <= j < i ==> x@[j] == y@[j],
        decreases x.len() - i,
    {
        if x[i] != y[i] {
            return false;
        }
        i = i + 1;
    }
    assert(x@ =~= y@);
    true
}

/// Relies on `String::from(char)`: a string holding the one character.
#[verifier::external_body]
pub(crate) fn char_string(c: char) -> (r: String)
    ensures
        r@ == seq![c],
{
    String::from(c)
}

/// Whether `s` starts with the character `c`.
pub fn has_char_prefix(s: &str, c: char) -> (r: bool)
    ensures
        r == starts_with_char(s@, c),
{
    s.unicode_len() > 0 && s.get_char(0) == c
}

/// The character sequences of a sequence of strings.
pub open spec fn views(v: Seq<String>) -> Seq<Seq<char>> {
    v.map_values(|s: String| s@)
}

/// An element-for-element copy of `v`.
pub fn copy_strings(v: &Vec<String>) -> (r: Vec<String>)
    ensures
        r@ == v@,
{
    let mut r: Vec<String> = Vec::new();
    let mut i: usize = 0;
    while i < v.len()
        invariant
            i <= v.len(),
            r@ == v@.subrange(0, i as int),
        decreases v.len() - i,
    {
        r.push(v[i].clone());
        i = i + 1;
    }
    assert(r@ =~= v@);
    r
}

/// Whether `s` starts with `pat`.
pub open spec fn starts_with(s: Seq<char>, pat: Seq<char>) -> bool {
    pat.len() <= s.len() && s.subrange(0, pat.len() as int) == pat
}

/// Whether `s` ends with `pat`.
pub open spec fn ends_with(s: Seq<char>, pat: Seq<char>) -> bool {
    pat.len() <= s.len() && s.subrange(s.len() - pat.len(), s.len() as int) == pat
}

/// The pieces of `s` between the non-overlapping occurrences of `pat`,
/// matched from the left; an empty pattern does not split.
pub open spec fn split_spec(s: Seq<char>, pat: Seq<char>) -> Seq<Seq<char>>
    decreases s.len(),
{
    if pat.len() == 0 || s.len() == 0 {
        seq![s]
    } else if starts_with(s, pat) {
        seq![Seq::<char>::empty()] + split_spec(s.subrange(pat.len() as int, s.len() as int), pat)
    } else {
        let rest = split_spec(s.drop_first(), pat);
        rest.update(0, seq![s[0]] + rest[0])
    }
}

/// The pieces joined with `sep` between neighbours.
pub open spec fn join_spec(parts: Seq<Seq<char>>, sep: Seq<char>) -> Seq<char>
    decreases parts.len(),
{
    if parts.len() == 0 {
        Seq::empty()
    } else if parts.len() == 1 {
        parts[0]
    } else {
        join_spec(parts.drop_last(), sep) + sep + parts.last()
    }
}

/// The position of the first occurrence of `pat` in `s`, or -1 when there
/// is none.
pub open spec fn find_first(s: Seq<char>, pat: Seq<char>) -> int
    decreases s.len(),
{
    if starts_with(s, pat) {
        0
    } else if s.len() == 0 {
        -1
    } else {
        let r = find_first(s.drop_first(), pat);
        if r < 0 {
            -1
        } else {
            r + 1
        }
    }
}

/// `s` after the first occurrence of `pat`, or all of `s` when there is
/// none.
pub open spec fn after_first(s: Seq<char>, pat: Seq<char>) -> Seq<char> {
    let i = find_first(s, pat);
    if i < 0 {
        s
    } else {
        s.subrange(i + pat.len(), s.len() as int)
    }
}

/// The number of non-overlapping occurrences of `pat` in `s`, matched from
/// the left.
pub open spec fn occurrences(s: Seq<char>, pat: Seq<char>) -> nat
    decreases s.len(),
{
    let i = find_first(s, pat);
    if pat.len() == 0 || i < 0 || i + pat.len() > s.len() {
        0
    } else {
        1 + occurrences(s.subrange(i + pat.len(), s.len() as int), pat)
    }
}

/// `s` up to its occurrence of `pat` number `m` (counting from zero).
pub open spec fn before_occurrence(s: Seq<char>, pat: Seq<char>, m: nat) -> Seq<char>
    decreases m,
{
    let i = find_first(s, pat);
    if i < 0 {
        s
    } else if m == 0 {
        s.subrange(0, i)
    } else {
        s.subrange(0, i + pat.len()) + before_occurrence(s.subrange(i + pat.len(), s.len() as int), pat, (m - 1) as nat)
    }
}

proof fn lemma_find_first_bounds(s: Seq<char>, pat: Seq<char>)
    ensures
        find_first(s, pat) >= 0 ==> find_first(s, pat) + pat.len() <= s.len() && starts_with(
            s.subrange(find_first(s, pat), s.len() as int),
            pat,
        ),
    decreases s.len(),
{
    if starts_with(s, pat) {
        assert(s.subrange(0, s.len() as int) =~= s);
    } else if s.len() > 0 {
        let s1 = s.drop_first();
        lemma_find_first_bounds(s1, pat);
        let r = find_first(s1, pat);
        if r >= 0 {
            assert(s.subrange(r + 1, s.len() as int) =~= s1.subrange(r, s1.len() as int));
        }
    }
}

/// The first piece of a split ends at the first occurrence of the pattern.
pub proof fn lemma_split_first(s: Seq<char>, pat: Seq<char>)
    requires
        pat.len() > 0,
    ensures
        find_first(s, pat) < 0 ==> split_spec(s, pat) == seq![s],
        find_first(s, pat) >= 0 ==> split_spec(s, pat) == seq![s.subrange(0, find_first(s, pat))]
            + split_spec(s.subrange(find_first(s, pat) + pat.len(), s.len() as int), pat),
        find_first(s, pat) >= 0 ==> find_first(s, pat) + pat.len() <= s.len(),
    decreases s.len(),
{
    lemma_find_first_bounds(s, pat);
    if s.len() == 0 {
        if starts_with(s, pat) {
        }
    } else if starts_with(s, pat) {
        assert(s.subrange(0, 0) =~= Seq::<char>::empty());
    } else {
        let s1 = s.drop_first();
        lemma_split_first(s1, pat);
        lemma_split_nonempty(s1, pat);
        let r = find_first(s1, pat);
        let rest = split_spec(s1, pat);
        if r < 0 {
            assert(seq![s[0]] + s1 =~= s);
            assert(rest.update(0, seq![s[0]] + rest[0]) =~= seq![s]);
        } else {
            assert(s1.subrange(r + pat.len(), s1.len() as int) =~= s.subrange(r + 1 + pat.len(), s.len() as int));
            assert(seq![s[0]] + s1.subrange(0, r) =~= s.subrange(0, r + 1));
            let tail = split_spec(s.subrange(r + 1 + pat.len(), s.len() as int), pat);
            assert(rest.update(0, seq![s[0]] + rest[0]) =~= seq![s.subrange(0, r + 1)] + tail);
        }
    }
}

proof fn lemma_join_cons(a: Seq<char>, xs: Seq<Seq<char>>, sep: Seq<char>)
    requires
        xs.len() > 0,
    ensures
        join_spec(seq![a] + xs, sep) == a + sep + join_spec(xs, sep),
    decreases xs.len(),
{
    let all = seq![a] + xs;
    assert(all.last() == xs.last());
    if xs.len() == 1 {
        assert(all.drop_last() =~= seq![a]);
        assert(join_spec(seq![a], sep) == a);
    } else {
        assert(all.drop_last() =~= seq![a] + xs.drop_last());
        lemma_join_cons(a, xs.drop_last(), sep);
        assert(a + sep + join_spec(xs.drop_last(), sep) + sep + xs.last() =~= a + sep + (join_spec(xs.drop_last(), sep) + sep + xs.last()));
    }
}

/// Joining the pieces of a split with the pattern gives back the string.
pub proof fn lemma_join_split(s: Seq<char>, pat: Seq<char>)
    requires
        pat.len() > 0,
    ensures
        join_spec(split_spec(s, pat), pat) == s,
    decreases s.len(),
{
    lemma_split_first(s, pat);
    let i = find_first(s, pat);
    if i >= 0 {
        let rest = s.subrange(i + pat.len(), s.len() as int);
        lemma_join_split(rest, pat);
        lemma_split_nonempty(rest, pat);
        lemma_join_cons(s.subrange(0, i), split_spec(rest, pat), pat);
        lemma_find_first_bounds(s, pat);
        assert(s.subrange(i, i + pat.len()) =~= pat) by {
            assert(s.subrange(i, s.len() as int).subrange(0, pat.len() as int) =~= s.subrange(i, i + pat.len()));
        }
        assert(s.subrange(0, i) + pat + rest =~= s);
    }
}

/// A split has one piece more than the pattern has occurrences.
pub proof fn lemma_split_len(s: Seq<char>, pat: Seq<char>)
    requires
        pat.len() > 0,
    ensures
        split_spec(s, pat).len() == occurrences(s, pat) + 1,
    decreases s.len(),
{
    lemma_split_first(s, pat);
    let i = find_first(s, pat);
    if i >= 0 {
        lemma_split_len(s.subrange(i + pat.len(), s.len() as int), pat);
    }
}

/// The first `m` pieces of a split, joined with the pattern, are the string
/// up to occurrence `m - 1`.
pub proof fn lemma_join_split_prefix(s: Seq<char>, pat: Seq<char>, m: nat)
    requires
        pat.len() > 0,
        1 <= m <= occurrences(s, pat),
    ensures
        join_spec(split_spec(s, pat).subrange(0, m as int), pat) == before_occurrence(s, pat, (m - 1) as nat),
    decreases m,
{
    lemma_split_first(s, pat);
    lemma_split_len(s, pat);
    let i = find_first(s, pat);
    let rest = s.subrange(i + pat.len(), s.len() as int);
    let pieces = split_spec(s, pat);
    if m == 1 {
        assert(pieces.subrange(0, 1) =~= seq![s.subrange(0, i)]);
    } else {
        lemma_join_split_prefix(rest, pat, (m - 1) as nat);
        assert(pieces.subrange(0, m as int) =~= seq![s.subrange(0, i)] + split_spec(rest, pat).subrange(0, m - 1));
        lemma_join_cons(s.subrange(0, i), split_spec(rest, pat).subrange(0, m - 1), pat);
        lemma_find_first_bounds(s, pat);
        assert(s.subrange(i, i + pat.len()) =~= pat) by {
            assert(s.subrange(i, s.len() as int).subrange(0, pat.len() as int) =~= s.subrange(i, i + pat.len()));
        }
        assert(s.subrange(0, i) + pat =~= s.subrange(0, i + pat.len()));
    }
}

/// A split always yields at least one piece.
pub proof fn lemma_split_nonempty(s: Seq<char>, pat: Seq<char>)
    ensures
        split_spec(s, pat).len() >= 1,
    decreases s.len(),
{
    if pat.len() == 0 || s.len() == 0 {
    } else if starts_with(s, pat) {
        lemma_split_nonempty(s.subrange(pat.len() as int, s.len() as int), pat);
    } else {
        lemma_split_nonempty(s.drop_first(), pat);
    }
}

fn matches_at(s: &Vec<char>, pat: &Vec<char>, i: usize) -> (r: bool)
    requires
        i <= s@.len(),
    ensures
        r == starts_with(s@.subrange(i as int, s@.len() as int), pat@),
{
    if pat.len() > s.len() - i {
        return false;
    }
    let mut k: usize = 0;
    while k < pat.len()
        invariant
            i + pat@.len() <= s@.len(),
            s@.len() == s.len(),
            pat@.len() == pat.len(),
            k <= pat@.len(),
            forall|j: int| 0 <= j < k ==> s@[i + j] == pat@[j],
        decreases pat.len() - k,
    {
        if s[i + k] != pat[k] {
            assert(s@.subrange(i as int, s@.len() as int)[k as int] != pat@[k as int]);
            return false;
        }
        k = k + 1;
    }
    assert(s@.subrange(i as int, s@.len() as int).subrange(0, pat@.len() as int) =~= pat@);
    true
}

/// Whether `s` starts with `pat`.
pub fn has_prefix(s: &str, pat: &str) -> (r: bool)
    ensures
        r == starts_with(s@, pat@),
{
    let n = pat.unicode_len();
    if n > s.unicode_len() {
        return false;
    }
    let head = s.substring_char(0, n);
    str_eq(head, pat)
}

/// Whether `s` ends with `pat`.
pub fn has_suffix(s: &str, pat: &str) -> (r: bool)
    ensures
        r == ends_with(s@, pat@),
{
    let n = pat.unicode_len();
    let m = s.unicode_len();
    if n > m {
        return false;
    }
    let tail = s.substring_char(m - n, m);
    str_eq(tail, pat)
}

/// Splits `s` at every non-overlapping occurrence of `pat`.
pub fn split_str(s: &str, pat: &str) -> (r: Vec<String>)
    ensures
        views(r@) == split_spec(s@, pat@),
{
    let cs = chars_of(s);
    let ps = chars_of(pat);
    let n = cs.len();
    let mut r: Vec<String> = Vec::new();
    if ps.len() == 0 {
        r.push(s.to_string());
        proof {
            assert(views(r@) =~= seq![s@]);
        }
        return r;
    }
    let mut start: usize = 0;
    let mut i: usize = 0;
    proof {
        lemma_split_nonempty(s@, pat@);
        assert(s@.subrange(0, 0) + split_spec(s@, pat@)[0] =~= split_spec(s@, pat@)[0]);
        assert(seq![split_spec(s@, pat@)[0]] + split_spec(s@, pat@).drop_first() =~= split_spec(s@, pat@));
        assert(s@.subrange(0, n as int) =~= s@);
    }
    while i < n
        invariant
            n == s@.len(),
            cs@ == s@,
            ps@ == pat@,
            pat@.len() > 0,
            start <= i <= n,
            ({
                let rest = split_spec(s@.subrange(i as int, n as int), pat@);
                &&& rest.len() >= 1
                &&& views(r@) + seq![s@.subrange(start as int, i as int) + rest[0]] + rest.drop_first()
                    == split_spec(s@, pat@)
            }),
        decreases n - i,
    {
        let ghost tail = s@.subrange(i as int, n as int);
        let ghost r0 = views(r@);
        let ghost start0 = start;
        let ghost i0 = i;
        if matches_at(&cs, &ps, i) {
            let piece = s.substring_char(start, i).to_string();
            r.push(piece);
            i = i + ps.len();
            start = i;
            proof {
                let next = s@.subrange(i as int, n as int);
                assert(tail.subrange(pat@.len() as int, tail.len() as int) =~= next);
                lemma_split_nonempty(next, pat@);
                assert(split_spec(tail, pat@) == seq![Seq::<char>::empty()] + split_spec(next, pat@));
                assert(s@.subrange(start as int, i as int) + split_spec(next, pat@)[0]
                    =~= split_spec(next, pat@)[0]);
                assert(views(r@) =~= r0.push(s@.subrange(start0 as int, i0 as int)));
                let old_rest = split_spec(tail, pat@);
                assert(s@.subrange(start0 as int, i0 as int) + old_rest[0]
                    =~= s@.subrange(start0 as int, i0 as int));
                assert(old_rest.drop_first() =~= split_spec(next, pat@));
                assert(seq![split_spec(next, pat@)[0]] + split_spec(next, pat@).drop_first()
                    =~= split_spec(next, pat@));
                assert(views(r@) + seq![s@.subrange(start as int, i as int) + split_spec(next, pat@)[0]]
                    + split_spec(next, pat@).drop_first()
                    =~= r0 + seq![s@.subrange(start0 as int, i0 as int) + old_rest[0]]
                    + old_rest.drop_first());
            }
        } else {
            i = i + 1;
            proof {
                let next = s@.subrange(i as int, n as int);
                assert(tail.drop_first() =~= next);
                lemma_split_nonempty(next, pat@);
                let r1 = split_spec(next, pat@);
                assert(split_spec(tail, pat@) == r1.update(0, seq![tail[0]] + r1[0]));
                assert(s@.subrange(start as int, i as int) =~= s@.subrange(start as int, i - 1) + seq![tail[0]]);
                assert(split_spec(tail, pat@).drop_first() =~= r1.drop_first());
                assert(s@.subrange(start as int, i as int) + r1[0]
                    =~= s@.subrange(start as int, i - 1) + split_spec(tail, pat@)[0]);
            }
        }
    }
    let ghost r0 = views(r@);
    let piece = s.substring_char(start, n).to_string();
    r.push(piece);
    proof {
        let rest = split_spec(s@.subrange(n as int, n as int), pat@);
        assert(s@.subrange(n as int, n as int) =~= Seq::<char>::empty());
        assert(rest == seq![Seq::<char>::empty()]);
        assert(s@.subrange(start as int, n as int) + rest[0] =~= s@.subrange(start as int, n as int));
        assert(rest.drop_first() =~= Seq::<Seq<char>>::empty());
        assert(views(r@) =~= r0.push(s@.subrange(start as int, n as int)));
    }
    r
}

/// The strings of `parts` joined with `sep` between neighbours.
pub fn join_str(parts: &[String], sep: &str) -> (r: String)
    ensures
        r@ == join_spec(views(parts@), sep@),
{
    let mut r = String::new();
    let mut i: usize = 0;
    while i < parts.len()
        invariant
            i <= parts@.len(),
            r@ == join_spec(views(parts@).subrange(0, i as int), sep@),
        decreases parts.len() - i,
    {
        let ghost before = views(parts@).subrange(0, i as int);
        let ghost after = views(parts@).subrange(0, i + 1);
        assert(after.drop_last() =~= before);
        if i > 0 {
            r.append(sep);
        }
        r.append(parts[i].as_str());
        proof {
            if i == 0 {
                assert(r@ =~= after[0]);
            }
        }
        i = i + 1;
    }
    assert(views(parts@).subrange(0, parts@.len() as int) =~= views(parts@));
    r
}

} // verus!
