//! The candidates that a key search tries: the pairs of letters that can be
//! plugged together and the orders in which rotors can be placed; and the
//! letter counts that its scores are computed from.
use itertools::Itertools;
use vstd::prelude::*;

use crate::walze::is_upper;

verus! {

/// `[a, b]` comes before `[c, d]` in alphabetical order.
pub open spec fn pair_before(p: [char; 2], q: [char; 2]) -> bool {
    p[0] < q[0] || (p[0] == q[0] && p[1] < q[1])
}

/// The pair `[a, b]` occurs in `s`.
pub open spec fn has_pair(s: Seq<[char; 2]>, a: char, b: char) -> bool {
    exists|i: int| 0 <= i < s.len() && #[trigger] s[i][0] == a && s[i][1] == b
}

/// `s` lists every pair of two different uppercase letters, smaller letter
/// first, once, in alphabetical order.
pub open spec fn is_all_letter_pairs(s: Seq<[char; 2]>) -> bool {
    &&& forall|i: int|
        0 <= i < s.len() ==> is_upper(#[trigger] s[i][0]) && is_upper(s[i][1]) && s[i][0] < s[i][1]
    &&& forall|a: char, b: char|
        is_upper(a) && is_upper(b) && a < b ==> #[trigger] has_pair(s, a, b)
    &&& forall|i: int, j: int| 0 <= i < j < s.len() ==> pair_before(#[trigger] s[i], #[trigger] s[j])
}

/// `s` lists every pair of two different characters from `first..=last`,
/// smaller first, once, in order.
pub open spec fn is_all_char_pairs(s: Seq<[char; 2]>, first: char, last: char) -> bool {
    &&& forall|i: int|
        0 <= i < s.len() ==> first <= #[trigger] s[i][0] && s[i][0] < s[i][1] && s[i][1] <= last
    &&& forall|a: char, b: char| first <= a && a < b && b <= last ==> #[trigger] has_pair(s, a, b)
    &&& forall|i: int, j: int| 0 <= i < j < s.len() ==> pair_before(#[trigger] s[i], #[trigger] s[j])
}

/// `[a, b, c]` comes before `[d, e, f]` in lexicographic order.
pub open spec fn triple_before(p: Seq<usize>, q: Seq<usize>) -> bool {
    p[0] < q[0] || (p[0] == q[0] && (p[1] < q[1] || (p[1] == q[1] && p[2] < q[2])))
}

/// Three different indices below `n`.
pub open spec fn is_index_triple(t: Seq<usize>, n: int) -> bool {
    &&& t.len() == 3
    &&& t[0] < n && t[1] < n && t[2] < n
    &&& t[0] != t[1] && t[0] != t[2] && t[1] != t[2]
}

/// The triple `[a, b, c]` occurs in `s`.
pub open spec fn has_triple(s: Seq<Seq<usize>>, a: usize, b: usize, c: usize) -> bool {
    exists|i: int| 0 <= i < s.len() && #[trigger] s[i] == seq![a, b, c]
}

/// `s` lists every ordered choice of three different indices below `n`,
/// once, in lexicographic order.
pub open spec fn is_all_index_triples(s: Seq<Seq<usize>>, n: int) -> bool {
    &&& forall|i: int| 0 <= i < s.len() ==> is_index_triple(#[trigger] s[i], n)
    &&& forall|a: usize, b: usize, c: usize|
        is_index_triple(seq![a, b, c], n) ==> #[trigger] has_triple(s, a, b, c)
    &&& forall|i: int, j: int|
        0 <= i < j < s.len() ==> triple_before(#[trigger] s[i], #[trigger] s[j])
}

/// Index vectors as sequences.
pub open spec fn vec_triples(s: Seq<Vec<usize>>) -> Seq<Seq<usize>> {
    Seq::new(s.len(), |i: int| s[i]@)
}

/// Index arrays as sequences.
pub open spec fn array_triples(s: Seq<[usize; 3]>) -> Seq<Seq<usize>> {
    Seq::new(s.len(), |i: int| s[i]@)
}

/// `itertools::Itertools::array_combinations::<2>` on the characters
/// `first..=last`: the 2-combinations of the characters, each in the order
/// the characters come, in lexicographic order of their positions (which
/// the crate's combination code produces by incrementing index arrays).
#[verifier::external_body]
fn char_combinations(first: char, last: char) -> (r: Vec<[char; 2]>)
    ensures
        is_all_char_pairs(r@, first, last),
{
    (first..=last).array_combinations::<2>().collect()
}

/// `itertools::Itertools::permutations` with `k` = 3 on `0..n`: the
/// 3-permutations of the indices, each as a vector of length 3, in
/// lexicographic order (the order of the crate's documented example, which
/// its index-and-cycle code keeps).
#[verifier::external_body]
fn index_permutations(n: usize) -> (r: Vec<Vec<usize>>)
    ensures
        is_all_index_triples(vec_triples(r@), n as int),
{
    (0..n).permutations(3).collect()
}

/// The pairs of letters that can be plugged together: every pair of two
/// different uppercase letters once, smaller letter first, in alphabetical
/// order.
pub fn plug_candidates() -> (r: Vec<[char; 2]>)
    ensures
        is_all_letter_pairs(r@),
{
    let r = char_combinations('A', 'Z');
    assert forall|a: char, b: char| is_upper(a) && is_upper(b) && a < b implies #[trigger] has_pair(r@, a, b) by {
        assert('A' <= a && a < b && b <= 'Z');
    }
    r
}

/// The orders in which three of `n` rotors can be placed: every ordered
/// choice of three different rotor indices once, in lexicographic order.
pub fn rotor_orders(n: usize) -> (r: Vec<[usize; 3]>)
    ensures
        is_all_index_triples(array_triples(r@), n as int),
{
    let perms = index_permutations(n);
    let ghost ps = vec_triples(perms@);
    let mut out: Vec<[usize; 3]> = Vec::new();
    let mut i: usize = 0;
    while i < perms.len()
        invariant
            i <= perms@.len(),
            ps == vec_triples(perms@),
            is_all_index_triples(ps, n as int),
            array_triples(out@) == ps.take(i as int),
        decreases perms@.len() - i,
    {
        let v = &perms[i];
        assert(ps[i as int] == v@);
        assert(is_index_triple(ps[i as int], n as int));
        let t: [usize; 3] = [v[0], v[1], v[2]];
        let ghost before = out@;
        assert(array_triples(before).len() == before.len());
        assert(before.len() == i);
        out.push(t);
        assert(out@.len() == i + 1);
        assert(t@ =~= v@);
        assert forall|j: int| 0 <= j <= i implies #[trigger] array_triples(out@)[j] == ps.take(i + 1)[j] by {
            if j < i {
                assert(out@[j] == before[j]);
                assert(array_triples(before)[j] == ps.take(i as int)[j]);
            }
        }
        assert(array_triples(out@) =~= ps.take(i + 1));
        i = i + 1;
    }
    assert(ps.take(i as int) =~= ps);
    out
}

/// The alphabet position of an ASCII letter of either case, or -1 for any
/// other character.
pub open spec fn ascii_letter_index(c: char) -> int {
    if 'A' <= c && c <= 'Z' {
        c as int - 65
    } else if 'a' <= c && c <= 'z' {
        c as int - 97
    } else {
        -1
    }
}

/// How many characters of `s` are the letter with alphabet position `x`,
/// in either case.
pub open spec fn count_letter(s: Seq<char>, x: int) -> nat
    decreases s.len(),
{
    if s.len() == 0 {
        0
    } else {
        count_letter(s.drop_last(), x) + if ascii_letter_index(s.last()) == x {
            1nat
        } else {
            0nat
        }
    }
}

/// What one more character adds to the letter counts: an uppercase letter
/// `c` adds one at position `c - 'A'`, a lowercase letter `c` adds one at
/// position `c - 'a'`, and nothing else is counted; an empty text counts
/// nothing.
pub proof fn law_letter_count_push(s: Seq<char>, c: char, x: int)
    requires
        0 <= x < 26,
    ensures
        count_letter(Seq::<char>::empty(), x) == 0,
        'A' <= c && c <= 'Z' ==> count_letter(s.push(c), x) == count_letter(s, x) + (if x == c as int
            - 65 {
            1int
        } else {
            0int
        }),
        'a' <= c && c <= 'z' ==> count_letter(s.push(c), x) == count_letter(s, x) + (if x == c as int
            - 97 {
            1int
        } else {
            0int
        }),
        !('A' <= c && c <= 'Z') && !('a' <= c && c <= 'z') ==> count_letter(s.push(c), x)
            == count_letter(s, x),
{
    assert(s.push(c).drop_last() =~= s);
}

/// How often each letter `A`..`Z` occurs in `text`, ignoring case; other
/// characters are not counted.
pub fn letter_counts(text: &str) -> (r: [usize; 26])
    requires
        text@.len() <= usize::MAX,
    ensures
        forall|x: int| 0 <= x < 26 ==> #[trigger] r[x] == count_letter(text@, x),
{
    let mut counts = [0usize; 26];
    for c in it: text.chars()
        invariant
            it.seq() == text@,
            text@.len() <= usize::MAX,
            forall|x: int|
                0 <= x < 26 ==> #[trigger] counts[x] == count_letter(text@.take(it.index() as int), x),
            forall|x: int| 0 <= x < 26 ==> #[trigger] counts[x] <= it.index(),
    {
        let ghost k = it.index() as int;
        assert(text@.take(k + 1).drop_last() =~= text@.take(k));
        assert(text@.take(k + 1).last() == c);
        if 'A' <= c && c <= 'Z' {
            let i = ((c as u32) - 65) as usize;
            counts[i] = counts[i] + 1;
        } else if 'a' <= c && c <= 'z' {
            let i = ((c as u32) - 97) as usize;
            counts[i] = counts[i] + 1;
        }
    }
    assert(text@.take(text@.len() as int) =~= text@);
    counts
}

} // verus!
