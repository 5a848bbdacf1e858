//! The plugboard (Steckerbrett): its description as text, the connections
//! it makes, and how it is read back.
use vstd::prelude::*;

use crate::walze::{index_letter, is_upper, letter_index};

verus! {

/// ASCII whitespace, which separates the connections in a plugboard
/// description: space, tab, line feed, form feed and carriage return.
pub open spec fn is_ascii_whitespace(c: char) -> bool {
    c == ' ' || c == '\t' || c == '\n' || c == '\x0C' || c == '\r'
}

/// The words of `s`: its maximal runs of characters that are not ASCII
/// whitespace, in order.
pub open spec fn words(s: Seq<char>) -> Seq<Seq<char>>
    decreases s.len(),
{
    if s.len() == 0 {
        Seq::empty()
    } else if is_ascii_whitespace(s.last()) {
        words(s.drop_last())
    } else if s.len() >= 2 && !is_ascii_whitespace(s[s.len() - 2]) {
        let w = words(s.drop_last());
        w.update(w.len() - 1, w.last().push(s.last()))
    } else {
        words(s.drop_last()).push(seq![s.last()])
    }
}

/// The character `c` stands for a plug position: its low byte is one of
/// `A`..`Z`.
pub open spec fn is_plug_char(c: char) -> bool {
    65 <= (c as u8) && (c as u8) <= 90
}

/// The plug position of such a character.
pub open spec fn plug_index(c: char) -> int {
    (c as u8) - 65
}

/// Connects plug positions `a` and `b`, whatever they were connected to.
pub open spec fn plug(board: Seq<u8>, a: int, b: int) -> Seq<u8> {
    board.update(a, b as u8).update(b, a as u8)
}

/// Every pair consists of plug characters.
pub open spec fn are_plug_pairs(pairs: Seq<[char; 2]>) -> bool {
    forall|k: int|
        0 <= k < pairs.len() ==> is_plug_char(#[trigger] pairs[k][0]) && is_plug_char(pairs[k][1])
}

/// Connects the given pairs of letters one after the other.
pub open spec fn plug_pairs(board: Seq<u8>, pairs: Seq<[char; 2]>) -> Seq<u8>
    decreases pairs.len(),
{
    if pairs.len() == 0 {
        board
    } else {
        let p = pairs.last();
        plug(plug_pairs(board, pairs.drop_last()), plug_index(p[0]), plug_index(p[1]))
    }
}

/// Why a word of a plugboard description was refused.
pub enum PlugFault {
    /// Not exactly two different uppercase letters.
    Invalid(Seq<char>),
    /// A letter that is already plugged.
    Overlapping(Seq<char>),
}

/// A word that names a connection: exactly two different uppercase letters.
pub open spec fn is_pair_word(w: Seq<char>) -> bool {
    &&& w.len() == 2
    &&& is_upper(w[0])
    &&& is_upper(w[1])
    &&& w[0] != w[1]
}

/// One word of a plugboard description applied to the board.
pub open spec fn plug_word(board: Seq<u8>, w: Seq<char>) -> (Seq<u8>, Option<PlugFault>) {
    if !is_pair_word(w) {
        (board, Some(PlugFault::Invalid(w)))
    } else {
        let a = letter_index(w[0]);
        let b = letter_index(w[1]);
        if board[a] != a || board[b] != b {
            (board, Some(PlugFault::Overlapping(w)))
        } else {
            (plug(board, a, b), None)
        }
    }
}

/// The words applied one after the other until one is refused: the board
/// reached and the refusal, if any.
pub open spec fn plug_words(board: Seq<u8>, ws: Seq<Seq<char>>) -> (Seq<u8>, Option<PlugFault>)
    decreases ws.len(),
{
    if ws.len() == 0 {
        (board, None)
    } else {
        let prev = plug_words(board, ws.drop_last());
        if prev.1 is Some {
            prev
        } else {
            plug_word(prev.0, ws.last())
        }
    }
}

/// The connections of the board among positions below `n`, each as its
/// pair of letters with the smaller one first, in alphabetical order.
pub open spec fn plug_mapping(board: Seq<u8>, n: int) -> Seq<[char; 2]>
    decreases n,
{
    if n <= 0 {
        Seq::empty()
    } else {
        let prev = plug_mapping(board, n - 1);
        if n - 1 < board[n - 1] {
            prev.push([index_letter(n - 1), index_letter(board[n - 1] as int)])
        } else {
            prev
        }
    }
}

/// How many of the positions below `n` are connected to another one.
pub open spec fn count_plugged(board: Seq<u8>, n: int) -> nat
    decreases n,
{
    if n <= 0 {
        0
    } else if board[n - 1] != n - 1 {
        count_plugged(board, n - 1) + 1
    } else {
        count_plugged(board, n - 1)
    }
}

/// Every position is connected back by the position it is connected to.
pub open spec fn is_board_involution(board: Seq<u8>) -> bool {
    &&& board.len() == 26
    &&& forall|i: int| 0 <= i < 26 ==> #[trigger] board[i] < 26
    &&& forall|i: int| 0 <= i < 26 ==> #[trigger] board[board[i] as int] == i
}

pub proof fn lemma_words_push_space(s: Seq<char>, c: char)
    requires
        is_ascii_whitespace(c),
    ensures
        words(s.push(c)) == words(s),
{
    assert(s.push(c).drop_last() =~= s);
}

pub proof fn lemma_words_nonempty(s: Seq<char>)
    requires
        s.len() > 0,
        !is_ascii_whitespace(s.last()),
    ensures
        words(s).len() > 0,
    decreases s.len(),
{
    if s.len() >= 2 && !is_ascii_whitespace(s[s.len() - 2]) {
        lemma_words_nonempty(s.drop_last());
    }
}

pub proof fn lemma_words_push_letter(s: Seq<char>, c: char)
    requires
        !is_ascii_whitespace(c),
    ensures
        s.len() > 0 && !is_ascii_whitespace(s.last()) ==> words(s).len() > 0 && words(s.push(c))
            == words(s).update(words(s).len() - 1, words(s).last().push(c)),
        !(s.len() > 0 && !is_ascii_whitespace(s.last())) ==> words(s.push(c)) == words(s).push(
            seq![c],
        ),
{
    let t = s.push(c);
    assert(t.drop_last() =~= s);
    if s.len() > 0 && !is_ascii_whitespace(s.last()) {
        lemma_words_nonempty(s);
        assert(t[t.len() - 2] == s.last());
    }
}

/// A text that ends in whitespace splits into words independently of what
/// follows.
pub proof fn lemma_words_append(p: Seq<char>, t: Seq<char>)
    requires
        p.len() == 0 || is_ascii_whitespace(p.last()),
    ensures
        words(p + t) == words(p) + words(t),
    decreases t.len(),
{
    if t.len() == 0 {
        assert(p + t =~= p);
        assert(words(p) + words(t) =~= words(p));
    } else {
        let u = t.drop_last();
        let c = t.last();
        lemma_words_append(p, u);
        assert(p + t =~= (p + u).push(c));
        assert(t =~= u.push(c));
        if is_ascii_whitespace(c) {
            lemma_words_push_space(p + u, c);
            lemma_words_push_space(u, c);
        } else {
            lemma_words_push_letter(p + u, c);
            lemma_words_push_letter(u, c);
            if (p + u).len() > 0 && !is_ascii_whitespace((p + u).last()) {
                assert(u.len() > 0);
                assert((p + u).last() == u.last());
                let wp = words(p);
                let wu = words(u);
                assert(words(p + u) == wp + wu);
                assert((wp + wu).update((wp + wu).len() - 1, (wp + wu).last().push(c)) =~= wp
                    + wu.update(wu.len() - 1, wu.last().push(c)));
            } else {
                if u.len() > 0 {
                    assert((p + u).last() == u.last());
                }
                assert((words(p) + words(u)).push(seq![c]) =~= words(p) + words(u).push(seq![c]));
            }
        }
    }
}

/// Once a word is refused, later words change nothing.
pub proof fn lemma_plug_words_fault_sticks(board: Seq<u8>, ws: Seq<Seq<char>>, more: Seq<Seq<char>>)
    requires
        plug_words(board, ws).1 is Some,
    ensures
        plug_words(board, ws + more) == plug_words(board, ws),
    decreases more.len(),
{
    if more.len() == 0 {
        assert(ws + more =~= ws);
    } else {
        lemma_plug_words_fault_sticks(board, ws, more.drop_last());
        assert((ws + more).drop_last() =~= ws + more.drop_last());
    }
}

pub proof fn lemma_plug_words_push(board: Seq<u8>, ws: Seq<Seq<char>>, w: Seq<char>)
    ensures
        plug_words(board, ws.push(w)) == (if plug_words(board, ws).1 is Some {
            plug_words(board, ws)
        } else {
            plug_word(plug_words(board, ws).0, w)
        }),
{
    assert(ws.push(w).drop_last() =~= ws);
}

/// The board that `plug_mapping` reads back after the connections below
/// `n` have been made again on an empty board.
spec fn partial_board(board: Seq<u8>, n: int) -> Seq<u8> {
    Seq::new(
        26,
        |i: int|
            if i < n || board[i] < n {
                board[i]
            } else {
                i as u8
            },
    )
}

proof fn lemma_mapping_replug(board: Seq<u8>, n: int)
    requires
        is_board_involution(board),
        0 <= n <= 26,
    ensures
        are_plug_pairs(plug_mapping(board, n)),
        plug_pairs(Seq::new(26, |i: int| i as u8), plug_mapping(board, n)) == partial_board(board, n),
    decreases n,
{
    let id = Seq::new(26, |i: int| i as u8);
    if n == 0 {
        assert(plug_pairs(id, plug_mapping(board, 0)) =~= partial_board(board, 0));
        assert(plug_mapping(board, 0).len() == 0);
    } else {
        lemma_mapping_replug(board, n - 1);
        let prev = plug_mapping(board, n - 1);
        let k = n - 1;
        let bk = board[k] as int;
        if k < bk {
            let pair = [index_letter(k), index_letter(bk)];
            assert(plug_mapping(board, n) == prev.push(pair));
            assert(prev.push(pair).drop_last() =~= prev);
            assert(pair[0] as u8 == k + 65);
            assert(pair[1] as u8 == bk + 65);
            assert(plug_index(pair[0]) == k);
            assert(plug_index(pair[1]) == bk);
            assert forall|j: int| 0 <= j < prev.push(pair).len() implies is_plug_char(
                #[trigger] prev.push(pair)[j][0],
            ) && is_plug_char(prev.push(pair)[j][1]) by {
                if j < prev.len() {
                    assert(prev.push(pair)[j] == prev[j]);
                }
            }
            assert(plug(partial_board(board, k), k, bk) =~= partial_board(board, n)) by {
                assert(board[bk] == k);
            }
            assert(are_plug_pairs(prev.push(pair)));
        } else {
            assert(plug_mapping(board, n) == prev);
            assert(partial_board(board, k) =~= partial_board(board, n)) by {
                assert forall|i: int| 0 <= i < 26 implies #[trigger] partial_board(board, k)[i]
                    == partial_board(board, n)[i] by {
                    if i == k {
                        assert(board[bk] == k);
                    }
                    if board[i] == k {
                        assert(board[k] == i);
                    }
                }
            }
        }
    }
}

/// Reading the connections of a board whose letters are connected in
/// pairs, and connecting them again on an empty board, gives back the
/// board: `set_plugboard_unchecked(&get_plugboard_mapping())` restores it.
pub proof fn law_plug_mapping_replug(board: Seq<u8>)
    requires
        is_board_involution(board),
    ensures
        are_plug_pairs(plug_mapping(board, 26)),
        plug_pairs(Seq::new(26, |i: int| i as u8), plug_mapping(board, 26)) == board,
{
    lemma_mapping_replug(board, 26);
    assert(partial_board(board, 26) =~= board);
}

/// Whatever the description, and also when a word is refused, the board
/// that `set_plugboard` leaves connects letters in pairs: a letter is
/// connected to the letter it is connected from.
pub proof fn law_plug_words_pairs(ws: Seq<Seq<char>>)
    ensures
        is_board_involution(plug_words(Seq::new(26, |i: int| i as u8), ws).0),
    decreases ws.len(),
{
    let id = Seq::new(26, |i: int| i as u8);
    if ws.len() > 0 {
        law_plug_words_pairs(ws.drop_last());
        let prev = plug_words(id, ws.drop_last());
        if prev.1 is None {
            let w = ws.last();
            if is_pair_word(w) {
                let a = letter_index(w[0]);
                let b = letter_index(w[1]);
                let bd = prev.0;
                if bd[a] == a && bd[b] == b {
                    let nb = plug(bd, a, b);
                    assert forall|i: int| 0 <= i < 26 implies #[trigger] nb[nb[i] as int] == i by {
                        if i != a && i != b {
                            assert(bd[i] != a && bd[i] != b) by {
                                if bd[i] == a {
                                    assert(bd[a] == i);
                                }
                                if bd[i] == b {
                                    assert(bd[b] == i);
                                }
                            }
                        }
                    }
                }
            }
        }
    }
}

/// How many of the positions below `n` are connected to a smaller one.
spec fn count_below(board: Seq<u8>, n: int) -> nat
    decreases n,
{
    if n <= 0 {
        0
    } else if board[n - 1] < n - 1 {
        count_below(board, n - 1) + 1
    } else {
        count_below(board, n - 1)
    }
}

/// How many of the positions below `n` are connected to a larger one that
/// is below `m`.
spec fn count_above_within(board: Seq<u8>, n: int, m: int) -> nat
    decreases n,
{
    if n <= 0 {
        0
    } else if n - 1 < board[n - 1] && board[n - 1] < m {
        count_above_within(board, n - 1, m) + 1
    } else {
        count_above_within(board, n - 1, m)
    }
}

proof fn lemma_count_split(board: Seq<u8>, n: int)
    requires
        0 <= n,
    ensures
        count_plugged(board, n) == plug_mapping(board, n).len() + count_below(board, n),
    decreases n,
{
    if n > 0 {
        lemma_count_split(board, n - 1);
    }
}

proof fn lemma_count_above_all(board: Seq<u8>, n: int)
    requires
        0 <= n <= 26,
        is_board_involution(board),
    ensures
        count_above_within(board, n, 26) == plug_mapping(board, n).len(),
    decreases n,
{
    if n > 0 {
        lemma_count_above_all(board, n - 1);
    }
}

proof fn lemma_count_above_grow(board: Seq<u8>, n: int, m: int)
    requires
        0 <= n <= 26,
        0 <= m < 26,
        is_board_involution(board),
    ensures
        count_above_within(board, n, m + 1) == count_above_within(board, n, m) + (if board[m] < n
            && board[m] < m {
            1int
        } else {
            0int
        }),
    decreases n,
{
    if n > 0 {
        lemma_count_above_grow(board, n - 1, m);
        let k = n - 1;
        if board[k] == m {
            assert(board[m] == k);
        }
        if board[m] == k {
            assert(board[k] == m);
        }
    }
}

proof fn lemma_count_below_above(board: Seq<u8>, n: int)
    requires
        0 <= n <= 26,
        is_board_involution(board),
    ensures
        count_below(board, n) == count_above_within(board, n, n),
    decreases n,
{
    if n > 0 {
        let k = n - 1;
        lemma_count_below_above(board, k);
        lemma_count_above_grow(board, k, k);
    }
}

/// On a board that connects letters in pairs, `number_of_plugs_set` counts
/// the connections that `get_plugboard_mapping` lists: half the letters
/// that are plugged are the smaller letter of their pair.
pub proof fn law_plug_count(board: Seq<u8>)
    requires
        is_board_involution(board),
    ensures
        count_plugged(board, 26) == 2 * plug_mapping(board, 26).len(),
        count_plugged(board, 26) / 2 == plug_mapping(board, 26).len(),
{
    lemma_count_split(board, 26);
    lemma_count_below_above(board, 26);
    lemma_count_above_all(board, 26);
}

/// The connections that the words of a description name, as letter pairs.
pub open spec fn word_pairs(ws: Seq<Seq<char>>) -> Seq<[char; 2]> {
    Seq::new(ws.len(), |k: int| [ws[k][0], ws[k][1]])
}

/// A description that `set_plugboard` accepts makes the same board as
/// `set_plugboard_unchecked` with the pairs its words name.
pub proof fn law_unchecked_agrees(ws: Seq<Seq<char>>)
    requires
        plug_words(Seq::new(26, |i: int| i as u8), ws).1 is None,
    ensures
        are_plug_pairs(word_pairs(ws)),
        plug_pairs(Seq::new(26, |i: int| i as u8), word_pairs(ws)) == plug_words(
            Seq::new(26, |i: int| i as u8),
            ws,
        ).0,
    decreases ws.len(),
{
    let id = Seq::new(26, |i: int| i as u8);
    if ws.len() > 0 {
        let prev = ws.drop_last();
        assert(plug_words(id, prev).1 is None);
        law_unchecked_agrees(prev);
        let w = ws.last();
        assert(is_pair_word(w));
        assert(word_pairs(ws).drop_last() =~= word_pairs(prev));
        assert(word_pairs(ws).last() == [w[0], w[1]]);
        assert(plug_index(w[0]) == letter_index(w[0]));
        assert(plug_index(w[1]) == letter_index(w[1]));
        assert forall|k: int| 0 <= k < word_pairs(ws).len() implies is_plug_char(
            #[trigger] word_pairs(ws)[k][0],
        ) && is_plug_char(word_pairs(ws)[k][1]) by {
            if k < prev.len() {
                assert(word_pairs(ws)[k] == word_pairs(prev)[k]);
            }
        }
    }
}

proof fn lemma_count_plugged_bound(board: Seq<u8>, n: int)
    requires
        0 <= n,
    ensures
        count_plugged(board, n) <= n,
    decreases n,
{
    if n > 0 {
        lemma_count_plugged_bound(board, n - 1);
    }
}

proof fn lemma_count_plugged_update(board: Seq<u8>, a: int, x: u8, n: int)
    requires
        0 <= a < board.len(),
        board[a] == a,
        x != a,
        0 <= n <= board.len(),
    ensures
        count_plugged(board.update(a, x), n) == count_plugged(board, n) + (if a < n {
            1int
        } else {
            0int
        }),
    decreases n,
{
    if n > 0 {
        lemma_count_plugged_update(board, a, x, n - 1);
    }
}

/// Each word that `set_plugboard` accepts connects two more letters:
/// after an accepted description of `k` words, `number_of_plugs_set` is `k`.
pub proof fn law_plug_words_count(ws: Seq<Seq<char>>)
    requires
        plug_words(Seq::new(26, |i: int| i as u8), ws).1 is None,
    ensures
        count_plugged(plug_words(Seq::new(26, |i: int| i as u8), ws).0, 26) == 2 * ws.len(),
        count_plugged(plug_words(Seq::new(26, |i: int| i as u8), ws).0, 26) / 2 == ws.len(),
    decreases ws.len(),
{
    let id = Seq::new(26, |i: int| i as u8);
    if ws.len() == 0 {
        lemma_count_plugged_fixed(id, 26);
    } else {
        let prev = ws.drop_last();
        law_plug_words_count(prev);
        law_plug_words_pairs(prev);
        let b = plug_words(id, prev).0;
        let w = ws.last();
        let a = letter_index(w[0]);
        let c = letter_index(w[1]);
        let b1 = b.update(a, c as u8);
        lemma_count_plugged_update(b, a, c as u8, 26);
        assert(b1[c] == c);
        lemma_count_plugged_update(b1, c, a as u8, 26);
    }
}

proof fn lemma_count_plugged_fixed(board: Seq<u8>, n: int)
    requires
        0 <= n <= board.len(),
        forall|i: int| 0 <= i < board.len() ==> #[trigger] board[i] == i,
    ensures
        count_plugged(board, n) == 0,
    decreases n,
{
    if n > 0 {
        lemma_count_plugged_fixed(board, n - 1);
    }
}

/// The letter `c` occurs in one of the listed pairs.
pub open spec fn is_listed(pairs: Seq<[char; 2]>, c: char) -> bool {
    exists|k: int| 0 <= k < pairs.len() && (#[trigger] pairs[k][0] == c || pairs[k][1] == c)
}

proof fn lemma_mapping_entries(board: Seq<u8>, n: int)
    requires
        is_board_involution(board),
        0 <= n <= 26,
    ensures
        forall|k: int|
            0 <= k < plug_mapping(board, n).len() ==> {
                let p = #[trigger] plug_mapping(board, n)[k];
                &&& 0 <= letter_index(p[0]) < n
                &&& letter_index(p[0]) < letter_index(p[1]) < 26
                &&& board[letter_index(p[0])] == letter_index(p[1])
            },
        forall|j: int, k: int|
            0 <= j < k < plug_mapping(board, n).len() ==> #[trigger] plug_mapping(board, n)[j][0]
                < #[trigger] plug_mapping(board, n)[k][0],
        forall|x: int|
            0 <= x < n && x < board[x] ==> exists|k: int|
                0 <= k < plug_mapping(board, n).len() && #[trigger] plug_mapping(board, n)[k][0]
                    == index_letter(x),
    decreases n,
{
    if n > 0 {
        lemma_mapping_entries(board, n - 1);
        let prev = plug_mapping(board, n - 1);
        let k = n - 1;
        if k < board[k] {
            let pair = [index_letter(k), index_letter(board[k] as int)];
            let cur = prev.push(pair);
            assert(plug_mapping(board, n) == cur);
            assert(letter_index(pair[0]) == k);
            assert(letter_index(pair[1]) == board[k]);
            assert forall|j: int| 0 <= j < prev.len() implies #[trigger] cur[j] == prev[j] by {}
            assert forall|x: int|
                0 <= x < n && x < board[x] implies exists|i: int|
                    0 <= i < cur.len() && #[trigger] cur[i][0] == index_letter(x) by {
                if x == k {
                    assert(cur[prev.len() as int][0] == index_letter(x));
                } else {
                    let i = choose|i: int| 0 <= i < prev.len() && #[trigger] prev[i][0] == index_letter(x);
                    assert(cur[i] == prev[i]);
                }
            }
        } else {
            assert(plug_mapping(board, n) == prev);
            assert forall|x: int|
                0 <= x < n && x < board[x] implies exists|i: int|
                    0 <= i < prev.len() && #[trigger] prev[i][0] == index_letter(x) by {
                assert(x != k);
            }
        }
    }
}

/// What `get_plugboard_mapping` lists for a board that connects letters in
/// pairs: pairs of uppercase letters with the smaller first, sorted by their
/// first letter, no letter twice, at most 13 of them, and a letter is
/// plugged (`is_plug_set`) exactly when it is listed.
pub proof fn law_plug_mapping_shape(board: Seq<u8>)
    requires
        is_board_involution(board),
    ensures
        forall|k: int|
            0 <= k < plug_mapping(board, 26).len() ==> {
                let p = #[trigger] plug_mapping(board, 26)[k];
                is_upper(p[0]) && is_upper(p[1]) && p[0] < p[1]
            },
        forall|j: int, k: int|
            0 <= j < k < plug_mapping(board, 26).len() ==> #[trigger] plug_mapping(board, 26)[j][0]
                < #[trigger] plug_mapping(board, 26)[k][0],
        forall|j: int, k: int|
            0 <= j < plug_mapping(board, 26).len() && 0 <= k < plug_mapping(board, 26).len() && j
                != k ==> {
                let p = #[trigger] plug_mapping(board, 26)[j];
                let q = #[trigger] plug_mapping(board, 26)[k];
                p[0] != q[0] && p[0] != q[1] && p[1] != q[0] && p[1] != q[1]
            },
        plug_mapping(board, 26).len() <= 13,
        forall|c: char|
            is_upper(c) ==> (#[trigger] is_listed(plug_mapping(board, 26), c) <==> board[letter_index(c)]
                != letter_index(c)),
{
    let m = plug_mapping(board, 26);
    lemma_mapping_entries(board, 26);
    law_plug_count(board);
    lemma_count_plugged_bound(board, 26);
    assert forall|k: int| 0 <= k < m.len() implies {
        let p = #[trigger] m[k];
        is_upper(p[0]) && is_upper(p[1]) && p[0] < p[1]
    } by {
        let p = m[k];
        assert(p[0] == index_letter(letter_index(p[0])));
        assert(p[1] == index_letter(letter_index(p[1])));
    }
    assert forall|j: int, k: int| 0 <= j < m.len() && 0 <= k < m.len() && j != k implies {
        let p = #[trigger] m[j];
        let q = #[trigger] m[k];
        p[0] != q[0] && p[0] != q[1] && p[1] != q[0] && p[1] != q[1]
    } by {
        let p = m[j];
        let q = m[k];
        let pa = letter_index(p[0]);
        let pb = letter_index(p[1]);
        let qa = letter_index(q[0]);
        let qb = letter_index(q[1]);
        if j < k {
            assert(p[0] < q[0]);
        } else {
            assert(q[0] < p[0]);
        }
        assert(board[pb as int] == pa);
        assert(board[qb as int] == qa);
    }
    assert forall|c: char| is_upper(c) implies (#[trigger] is_listed(m, c) <==> board[letter_index(c)]
        != letter_index(c)) by {
        let x = letter_index(c);
        assert(c == index_letter(x));
        if board[x] != x {
            if x < board[x] {
                let k = choose|k: int| 0 <= k < m.len() && #[trigger] m[k][0] == index_letter(x);
                assert(m[k][0] == c);
            } else {
                let y = board[x] as int;
                assert(board[y] == x);
                let k = choose|k: int| 0 <= k < m.len() && #[trigger] m[k][0] == index_letter(y);
                assert(letter_index(m[k][1]) == board[y]);
                assert(m[k][1] == index_letter(letter_index(m[k][1])));
                assert(m[k][1] == c);
            }
        }
        if is_listed(m, c) {
            let k = choose|k: int| 0 <= k < m.len() && (#[trigger] m[k][0] == c || m[k][1] == c);
            let pa = letter_index(m[k][0]);
            let pb = letter_index(m[k][1]);
            assert(board[pb] == pa);
        }
    }
}

/// The two words `v` and `w` share no letter.
pub open spec fn words_disjoint(v: Seq<char>, w: Seq<char>) -> bool {
    forall|i: int, j: int| 0 <= i < v.len() && 0 <= j < w.len() ==> #[trigger] v[i] != #[trigger] w[j]
}

/// No word uses the letter with index `x`.
pub open spec fn letter_unused(ws: Seq<Seq<char>>, x: int) -> bool {
    forall|k: int| 0 <= k < ws.len() ==> #[trigger] ws[k][0] != index_letter(x) && ws[k][1] != index_letter(x)
}

/// A description whose words are each two different uppercase letters,
/// with no letter in two words, is accepted, and it connects the two
/// letters of every word and no other letter.
pub proof fn law_pairs_accepted(ws: Seq<Seq<char>>)
    requires
        forall|k: int|
            0 <= k < ws.len() ==> #[trigger] ws[k].len() == 2 && is_upper(ws[k][0]) && is_upper(ws[k][1])
                && ws[k][0] != ws[k][1],
        forall|j: int, k: int|
            0 <= j < ws.len() && 0 <= k < ws.len() && j != k ==> words_disjoint(#[trigger] ws[j], #[trigger] ws[k]),
    ensures
        plug_words(Seq::new(26, |i: int| i as u8), ws).1 is None,
        forall|k: int|
            0 <= k < ws.len() ==> {
                let b = plug_words(Seq::new(26, |i: int| i as u8), ws).0;
                &&& b[letter_index(#[trigger] ws[k][0])] == letter_index(ws[k][1])
                &&& b[letter_index(ws[k][1])] == letter_index(ws[k][0])
            },
        forall|x: int|
            0 <= x < 26 && #[trigger] letter_unused(ws, x) ==> plug_words(
                Seq::new(26, |i: int| i as u8),
                ws,
            ).0[x] == x,
    decreases ws.len(),
{
    let id = Seq::new(26, |i: int| i as u8);
    if ws.len() > 0 {
        let prev = ws.drop_last();
        assert forall|j: int, k: int|
            0 <= j < prev.len() && 0 <= k < prev.len() && j != k implies words_disjoint(
            #[trigger] prev[j],
            #[trigger] prev[k],
        ) by {
            assert(prev[j] == ws[j] && prev[k] == ws[k]);
        }
        assert forall|k: int| 0 <= k < prev.len() implies #[trigger] prev[k].len() == 2 && is_upper(
            prev[k][0],
        ) && is_upper(prev[k][1]) && prev[k][0] != prev[k][1] by {
            assert(prev[k] == ws[k]);
        }
        law_pairs_accepted(prev);
        law_plug_words_pairs(prev);
        let b = plug_words(id, prev).0;
        let w = ws.last();
        let n = ws.len() - 1;
        assert(w == ws[n]);
        let a = letter_index(w[0]);
        let c = letter_index(w[1]);
        assert(w[0] == index_letter(a));
        assert(w[1] == index_letter(c));
        // the letters of the last word are in no earlier word
        assert forall|k: int| 0 <= k < prev.len() implies #[trigger] prev[k][0] != index_letter(a)
            && prev[k][1] != index_letter(a) by {
            assert(prev[k] == ws[k]);
            assert(words_disjoint(ws[k], ws[n]));
            assert(ws[k][0] != ws[n][0]);
            assert(ws[k][1] != ws[n][0]);
        }
        assert forall|k: int| 0 <= k < prev.len() implies #[trigger] prev[k][0] != index_letter(c)
            && prev[k][1] != index_letter(c) by {
            assert(prev[k] == ws[k]);
            assert(words_disjoint(ws[k], ws[n]));
            assert(ws[k][0] != ws[n][1]);
            assert(ws[k][1] != ws[n][1]);
        }
        assert(letter_unused(prev, a));
        assert(letter_unused(prev, c));
        assert(b[a] == a);
        assert(b[c] == c);
        lemma_plug_words_push(id, prev, w);
        assert(ws =~= prev.push(w));
        let nb = plug(b, a, c);
        assert forall|k: int| 0 <= k < ws.len() implies {
            &&& nb[letter_index(#[trigger] ws[k][0])] == letter_index(ws[k][1])
            &&& nb[letter_index(ws[k][1])] == letter_index(ws[k][0])
        } by {
            if k < n {
                assert(prev[k] == ws[k]);
                assert(words_disjoint(ws[k], ws[n]));
                assert(ws[k][0] != ws[n][0] && ws[k][0] != ws[n][1]);
                assert(ws[k][1] != ws[n][0] && ws[k][1] != ws[n][1]);
                assert(letter_index(ws[k][0]) != a && letter_index(ws[k][0]) != c);
                assert(letter_index(ws[k][1]) != a && letter_index(ws[k][1]) != c);
                assert(b[letter_index(prev[k][0])] == letter_index(prev[k][1]));
                assert(b[letter_index(prev[k][1])] == letter_index(prev[k][0]));
            } else {
                assert(ws[k] == w);
                assert(a != c);
                assert(nb[a] == c);
                assert(nb[c] == a);
            }
        }
        assert forall|x: int| 0 <= x < 26 && #[trigger] letter_unused(ws, x) implies nb[x] == x by {
            assert(ws[n][0] != index_letter(x) && ws[n][1] != index_letter(x));
            assert forall|k: int| 0 <= k < prev.len() implies #[trigger] prev[k][0] != index_letter(x)
                && prev[k][1] != index_letter(x) by {
                assert(prev[k] == ws[k]);
            }
            assert(letter_unused(prev, x));
            assert(b[x] == x);
            assert(x != a && x != c);
            assert(nb[x] == b[x]);
        }
    }
}

} // verus!
