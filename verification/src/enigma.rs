//! The machine: plugboard, entry wheel, rotors and reflector, and the
//! encoding of text.
use vstd::prelude::*;

use crate::steckbrett::{
    are_plug_pairs, count_plugged, is_ascii_whitespace, is_board_involution, is_plug_char,
    lemma_plug_words_fault_sticks, lemma_plug_words_push, lemma_words_append, lemma_words_push_letter,
    lemma_words_push_space, plug, plug_index, plug_mapping, plug_pairs, plug_word, plug_words, words,
    PlugFault,
};
use crate::text::{decimal, push_decimal};
use crate::walze::{
    index_letter, inverse_wiring, is_entry_wheel, is_involution, is_permutation, is_reflector, is_upper,
    law_standard_wheels, lemma_inverse_of_permutation, lemma_rotor_roundtrip, letter_index,
    rotor_backward, rotor_forward, wiring_of, Eintrittswalze, Umkehrwalze, Walze,
};

verus! {

/// The state of a machine as a mathematical value.
///
/// Rotor positions and ring settings are kept 0-based here (0 for `A`);
/// the public setters and getters use 1..=26 as the operators did.
pub struct EnigmaView {
    pub eintrittswalze: Eintrittswalze,
    pub walzen: Seq<Walze>,
    pub umkehrwalze: Umkehrwalze,
    pub ring_stellung: Seq<u8>,
    pub walzen_stellung: Seq<u8>,
    /// Letter `i` is connected to letter `steckbrett[i]`.
    pub steckbrett: Seq<u8>,
}

/// The plugboard with nothing plugged in.
pub open spec fn identity_board() -> Seq<u8> {
    Seq::new(26, |i: int| i as u8)
}

impl EnigmaView {
    /// One ring setting and one position per rotor, all values below 26.
    pub open spec fn wf(self) -> bool {
        &&& self.ring_stellung.len() == self.walzen.len()
        &&& self.walzen_stellung.len() == self.walzen.len()
        &&& self.steckbrett.len() == 26
        &&& forall|i: int| 0 <= i < self.walzen.len() ==> #[trigger] self.ring_stellung[i] < 26
        &&& forall|i: int| 0 <= i < self.walzen.len() ==> #[trigger] self.walzen_stellung[i] < 26
        &&& forall|i: int| 0 <= i < 26 ==> #[trigger] self.steckbrett[i] < 26
    }

    /// Rotor `i` moves on with the next key press, as on the real machine:
    /// the rightmost rotor always moves; another rotor moves when the rotor
    /// to its right stands at one of its turnover notches, or when it stands
    /// at one of its own notches and is neither the rightmost nor the
    /// leftmost rotor (the double step of the middle rotors).
    pub open spec fn steps(self, i: int) -> bool {
        let n = self.walzen.len() as int;
        ||| i == n - 1
        ||| (i + 1 < n && self.walzen[i + 1].has_notch(self.walzen_stellung[i + 1] as int))
        ||| (0 < i && i < n - 1 && self.walzen[i].has_notch(self.walzen_stellung[i] as int))
    }

    /// The machine after one key press has moved the rotors.
    pub open spec fn stepped(self) -> EnigmaView {
        EnigmaView {
            walzen_stellung: Seq::new(
                self.walzen_stellung.len(),
                |i: int|
                    if self.steps(i) {
                        ((self.walzen_stellung[i] + 1) % 26) as u8
                    } else {
                        self.walzen_stellung[i]
                    },
            ),
            ..self
        }
    }

    /// The machine after `k` key presses.
    pub open spec fn after(self, k: nat) -> EnigmaView
        decreases k,
    {
        if k == 0 {
            self
        } else {
            self.after((k - 1) as nat).stepped()
        }
    }

    /// How far the wiring of rotor `i` is turned: position minus ring setting.
    pub open spec fn offset(self, i: int) -> int {
        (self.walzen_stellung[i] + 26 - self.ring_stellung[i]) % 26
    }

    /// Letter `c` sent through the rotors from the last one down to rotor `k`.
    pub open spec fn forward(self, c: int, k: int) -> int
        decreases self.walzen.len() - k,
    {
        if k < 0 || k >= self.walzen.len() {
            c
        } else {
            rotor_forward(self.walzen[k].wiring(), self.forward(c, k + 1), self.offset(k))
        }
    }

    /// Letter `c` sent back through rotors `0`, ..., `k - 1`.
    pub open spec fn backward(self, c: int, k: int) -> int
        decreases k,
    {
        if k <= 0 {
            c
        } else {
            rotor_backward(self.walzen[k - 1].backward(), self.backward(c, k - 1), self.offset(k - 1))
        }
    }

    /// The letter that letter `c` lights up with the rotors where they stand:
    /// plugboard, entry wheel, rotors, reflector, rotors back, entry wheel
    /// back, plugboard.
    pub open spec fn encipher(self, c: int) -> int {
        let p = self.steckbrett[c] as int;
        let e = self.eintrittswalze.wiring()[p];
        let f = self.forward(e, 0);
        let u = self.umkehrwalze.wiring()[f];
        let b = self.backward(u, self.walzen.len() as int);
        let x = self.eintrittswalze.backward()[b];
        self.steckbrett[x] as int
    }

    /// The text that typing `s` produces: before each letter the rotors move
    /// on, then the letter is enciphered.
    pub open spec fn encode_text(self, s: Seq<char>) -> Seq<char> {
        Seq::new(
            s.len(),
            |i: int| index_letter(self.after((i + 1) as nat).encipher(letter_index(s[i]))),
        )
    }
}

/// The plugboard as a wiring.
pub open spec fn board_wiring(b: Seq<u8>) -> Seq<int> {
    Seq::new(26, |i: int| b[i] as int)
}

impl EnigmaView {
    /// Every wheel is a bijection whose backward wiring is its inverse, the
    /// reflector and the plugboard are involutions: the conditions under
    /// which the machine deciphers what it enciphers.
    pub open spec fn is_reciprocal(self) -> bool {
        &&& self.wf()
        &&& is_permutation(self.eintrittswalze.wiring())
        &&& self.eintrittswalze.backward() == inverse_wiring(self.eintrittswalze.wiring())
        &&& forall|i: int|
            0 <= i < self.walzen.len() ==> is_permutation(#[trigger] self.walzen[i].wiring())
        &&& forall|i: int|
            0 <= i < self.walzen.len() ==> #[trigger] self.walzen[i].backward() == inverse_wiring(
                self.walzen[i].wiring(),
            )
        &&& is_involution(self.umkehrwalze.wiring())
        &&& is_involution(board_wiring(self.steckbrett))
    }

    /// Letter `c` sent back through rotors `k`, ..., the last.
    spec fn back_from(self, c: int, k: int) -> int
        decreases self.walzen.len() - k,
    {
        if k < 0 || k >= self.walzen.len() {
            c
        } else {
            self.back_from(rotor_backward(self.walzen[k].backward(), c, self.offset(k)), k + 1)
        }
    }

    /// Letter `c` sent through rotors `k - 1`, ..., `0`.
    spec fn forward_upto(self, c: int, k: int) -> int
        decreases k,
    {
        if k <= 0 {
            c
        } else {
            self.forward_upto(rotor_forward(self.walzen[k - 1].wiring(), c, self.offset(k - 1)), k - 1)
        }
    }
}

proof fn lemma_offset_range(m: EnigmaView, i: int)
    requires
        m.wf(),
        0 <= i < m.walzen.len(),
    ensures
        0 <= m.offset(i) < 26,
{
}

proof fn lemma_back_from_forward(m: EnigmaView, c: int, k: int)
    requires
        m.is_reciprocal(),
        0 <= c < 26,
        0 <= k <= m.walzen.len(),
    ensures
        m.back_from(m.forward(c, k), k) == c,
    decreases m.walzen.len() - k,
{
    if k < m.walzen.len() {
        lemma_back_from_forward(m, c, k + 1);
        lemma_forward_range(m, c, k + 1);
        lemma_offset_range(m, k);
        lemma_rotor_roundtrip(m.walzen[k].wiring(), m.forward(c, k + 1), m.offset(k));
    }
}

proof fn lemma_forward_range(m: EnigmaView, c: int, k: int)
    requires
        m.wf(),
        0 <= c < 26,
        0 <= k,
    ensures
        0 <= m.forward(c, k) < 26,
    decreases m.walzen.len() - k,
{
    if k < m.walzen.len() {
        lemma_forward_range(m, c, k + 1);
    }
}

proof fn lemma_backward_range(m: EnigmaView, c: int, k: int)
    requires
        m.wf(),
        0 <= c < 26,
        k <= m.walzen.len(),
    ensures
        0 <= m.backward(c, k) < 26,
    decreases k,
{
    if k > 0 {
        lemma_backward_range(m, c, k - 1);
    }
}

proof fn lemma_backward_split(m: EnigmaView, c: int, k: int)
    requires
        m.wf(),
        0 <= k <= m.walzen.len(),
    ensures
        m.back_from(m.backward(c, k), k) == m.back_from(c, 0),
    decreases k,
{
    if k > 0 {
        lemma_backward_split(m, c, k - 1);
    }
}

proof fn lemma_forward_upto_backward(m: EnigmaView, c: int, k: int)
    requires
        m.is_reciprocal(),
        0 <= c < 26,
        0 <= k <= m.walzen.len(),
    ensures
        m.forward_upto(m.backward(c, k), k) == c,
    decreases k,
{
    if k > 0 {
        lemma_forward_upto_backward(m, c, k - 1);
        lemma_backward_range(m, c, k - 1);
        lemma_offset_range(m, k - 1);
        lemma_rotor_roundtrip(m.walzen[k - 1].wiring(), m.backward(c, k - 1), m.offset(k - 1));
    }
}

proof fn lemma_forward_split(m: EnigmaView, c: int, k: int)
    requires
        m.wf(),
        0 <= k <= m.walzen.len(),
    ensures
        m.forward_upto(m.forward(c, k), k) == m.forward(c, 0),
    decreases k,
{
    if k > 0 {
        lemma_forward_split(m, c, k - 1);
    }
}

/// Sending a letter through all rotors and back again gives the letter,
/// in either order.
proof fn lemma_rotor_stack_roundtrip(m: EnigmaView, c: int)
    requires
        m.is_reciprocal(),
        0 <= c < 26,
    ensures
        0 <= m.forward(c, 0) < 26,
        0 <= m.backward(c, m.walzen.len() as int) < 26,
        m.backward(m.forward(c, 0), m.walzen.len() as int) == c,
        m.forward(m.backward(c, m.walzen.len() as int), 0) == c,
{
    let n = m.walzen.len() as int;
    lemma_forward_range(m, c, 0);
    lemma_backward_range(m, c, n);
    lemma_back_from_forward(m, c, 0);
    lemma_backward_split(m, m.forward(c, 0), n);
    lemma_forward_upto_backward(m, c, n);
    lemma_forward_split(m, m.backward(c, n), n);
}

/// With a reciprocal wiring, enciphering is an involution of the alphabet:
/// the letter that `c` lights up lights up `c`.
pub proof fn lemma_encipher_involution(m: EnigmaView, c: int)
    requires
        m.is_reciprocal(),
        0 <= c < 26,
    ensures
        0 <= m.encipher(c) < 26,
        m.encipher(m.encipher(c)) == c,
{
    let n = m.walzen.len() as int;
    let ew = m.eintrittswalze.wiring();
    let eb = m.eintrittswalze.backward();
    let uw = m.umkehrwalze.wiring();
    let b = m.steckbrett;
    lemma_inverse_of_permutation(ew);
    assert(board_wiring(b)[c] == b[c] as int);
    let p = b[c] as int;
    let e = ew[p];
    lemma_rotor_stack_roundtrip(m, e);
    let f = m.forward(e, 0);
    let u = uw[f];
    lemma_rotor_stack_roundtrip(m, u);
    let bk = m.backward(u, n);
    let x = eb[bk];
    assert(board_wiring(b)[x] == b[x] as int);
    let y = b[x] as int;
    assert(m.encipher(c) == y);
    // the second pass runs the first one backwards
    assert(b[y] as int == x) by {
        assert(board_wiring(b)[y] == b[y] as int);
    }
    assert(ew[x] == bk);
    assert(m.backward(m.forward(bk, 0), n) == bk);
    assert(m.forward(bk, 0) == u) by {
        assert(m.forward(m.backward(u, n), 0) == u);
    }
    assert(uw[u] == f);
    assert(m.backward(f, n) == e);
    assert(eb[e] == p);
    assert(b[p] as int == c) by {
        assert(board_wiring(b)[p] == b[p] as int);
    }
}

/// A word refused before a space decides the outcome of the whole text.
proof fn lemma_fault_at_space(s: Seq<char>, k: int)
    requires
        0 <= k < s.len(),
        is_ascii_whitespace(s[k]),
        plug_words(identity_board(), words(s.take(k + 1))).1 is Some,
    ensures
        plug_words(identity_board(), words(s)) == plug_words(identity_board(), words(s.take(k + 1))),
{
    let q = s.take(k + 1);
    assert(q.last() == s[k]);
    assert(s =~= q + s.skip(k + 1));
    lemma_words_append(q, s.skip(k + 1));
    lemma_plug_words_fault_sticks(identity_board(), words(q), words(s.skip(k + 1)));
}

/// Moving the rotors changes only the rotor positions.
proof fn lemma_after_keeps_wheels(m: EnigmaView, k: nat)
    requires
        m.wf(),
    ensures
        m.after(k) == (EnigmaView { walzen_stellung: m.after(k).walzen_stellung, ..m }),
        m.after(k).wf(),
    decreases k,
{
    if k > 0 {
        lemma_after_keeps_wheels(m, (k - 1) as nat);
        assert(m.after((k - 1) as nat).stepped().wf());
    }
}

/// Moving the rotors keeps the wiring reciprocal.
proof fn lemma_after_reciprocal(m: EnigmaView, k: nat)
    requires
        m.is_reciprocal(),
    ensures
        m.after(k).is_reciprocal(),
        m.after(k).walzen == m.walzen,
    decreases k,
{
    if k > 0 {
        lemma_after_reciprocal(m, (k - 1) as nat);
        let a = m.after((k - 1) as nat);
        assert(a.stepped().wf());
    }
}

/// Typing the text a machine produced into the machine set up the same way
/// gives back the original text, when the wiring is reciprocal.
pub proof fn law_encode_text_twice(m: EnigmaView, s: Seq<char>)
    requires
        m.is_reciprocal(),
        all_upper(s),
    ensures
        all_upper(m.encode_text(s)),
        m.encode_text(m.encode_text(s)) == s,
{
    let t = m.encode_text(s);
    assert forall|i: int| 0 <= i < s.len() implies is_upper(#[trigger] t[i]) && m.encode_text(
        t,
    )[i] == s[i] by {
        let a = m.after((i + 1) as nat);
        lemma_after_reciprocal(m, (i + 1) as nat);
        assert(is_upper(s[i]));
        let c = letter_index(s[i]);
        lemma_encipher_involution(a, c);
        assert(letter_index(t[i]) == a.encipher(c));
    }
    assert(m.encode_text(t) =~= s);
}

/// With a reciprocal wiring and a reflector that sends no letter to
/// itself, no letter is ever enciphered as itself.
pub proof fn law_no_letter_to_itself(m: EnigmaView, c: int)
    requires
        m.is_reciprocal(),
        forall|i: int| 0 <= i < 26 ==> #[trigger] m.umkehrwalze.wiring()[i] != i,
        0 <= c < 26,
    ensures
        m.encipher(c) != c,
{
    let n = m.walzen.len() as int;
    let ew = m.eintrittswalze.wiring();
    let eb = m.eintrittswalze.backward();
    let uw = m.umkehrwalze.wiring();
    let b = m.steckbrett;
    lemma_inverse_of_permutation(ew);
    assert(board_wiring(b)[c] == b[c] as int);
    let p = b[c] as int;
    let e = ew[p];
    lemma_rotor_stack_roundtrip(m, e);
    let f = m.forward(e, 0);
    let u = uw[f];
    lemma_rotor_stack_roundtrip(m, u);
    let bk = m.backward(u, n);
    let x = eb[bk];
    assert(board_wiring(b)[x] == b[x] as int);
    if m.encipher(c) == c {
        assert(b[x] as int == c);
        assert(b[c] as int == x) by {
            assert(board_wiring(b)[b[x] as int] == x);
        }
        assert(x == p);
        assert(ew[x] == bk);
        assert(bk == e);
        assert(m.forward(bk, 0) == u);
        assert(u == f);
        assert(false);
    }
}

/// Typing two texts one after the other is typing the two together: the
/// second continues from where the rotors stand after the first.
pub proof fn law_encode_text_concat(m: EnigmaView, a: Seq<char>, b: Seq<char>)
    ensures
        m.encode_text(a + b) == m.encode_text(a) + m.after(a.len()).encode_text(b),
        m.after((a + b).len()) == m.after(a.len()).after(b.len()),
{
    let l = m.encode_text(a + b);
    let r = m.encode_text(a) + m.after(a.len()).encode_text(b);
    assert forall|i: int| 0 <= i < (a + b).len() implies #[trigger] l[i] == r[i] by {
        if i >= a.len() {
            let j = i - a.len();
            assert((a + b)[i] == b[j]);
            lemma_after_add(m, a.len(), (j + 1) as nat);
            assert((a.len() + (j + 1) as nat) as nat == (i + 1) as nat);
        }
    }
    assert(m.encode_text(a + b) =~= m.encode_text(a) + m.after(a.len()).encode_text(b));
    lemma_after_add(m, a.len(), b.len());
}

proof fn lemma_after_add(m: EnigmaView, j: nat, k: nat)
    ensures
        m.after(j + k) == m.after(j).after(k),
    decreases k,
{
    if k > 0 {
        lemma_after_add(m, j, (k - 1) as nat);
        assert((j + k - 1) as nat == j + (k - 1) as nat);
    }
}

/// One key press: the rightmost rotor moves on by one, every other rotor
/// either stays or moves on by one, all positions stay in range, nothing
/// but the positions changes; and when no rotor stands at one of its
/// notches only the rightmost one moves.
pub proof fn law_key_press_positions(m: EnigmaView)
    requires
        m.wf(),
        m.walzen.len() >= 1,
    ensures
        ({
            let n = m.walzen.len() as int;
            let q = m.stepped().walzen_stellung;
            let p = m.walzen_stellung;
            &&& m.stepped() == (EnigmaView { walzen_stellung: q, ..m })
            &&& m.stepped().wf()
            &&& q[n - 1] == (p[n - 1] + 1) % 26
            &&& forall|i: int| 0 <= i < n - 1 ==> #[trigger] q[i] == p[i] || q[i] == (p[i] + 1) % 26
            &&& (forall|i: int| 0 <= i < n ==> !#[trigger] m.walzen[i].has_notch(p[i] as int))
                ==> forall|i: int| 0 <= i < n - 1 ==> #[trigger] q[i] == p[i]
        }),
{
    let n = m.walzen.len() as int;
    let p = m.walzen_stellung;
    if forall|i: int| 0 <= i < n ==> !#[trigger] m.walzen[i].has_notch(p[i] as int) {
        assert forall|i: int| 0 <= i < n - 1 implies !m.steps(i) by {
            assert(!m.walzen[i + 1].has_notch(p[i + 1] as int));
            assert(!m.walzen[i].has_notch(p[i] as int));
        }
    }
}

/// Which rotors one key press moves, as on the real machine: the rightmost
/// rotor always moves on by one; the leftmost rotor (of two or more) moves
/// exactly when the rotor to its right stands at one of its notches, never
/// because of its own notch; a rotor in between moves exactly when the rotor
/// to its right stands at one of its notches or it stands at one of its own
/// (the double step). A rotor that does not move keeps its position.
pub proof fn law_key_press_rule(m: EnigmaView)
    requires
        m.wf(),
    ensures
        ({
            let n = m.walzen.len() as int;
            let p = m.walzen_stellung;
            let q = m.stepped().walzen_stellung;
            &&& q.len() == n
            &&& n >= 1 ==> q[n - 1] == (p[n - 1] + 1) % 26
            &&& n >= 2 ==> (q[0] == (if m.walzen[1].has_notch(p[1] as int) {
                (p[0] + 1) % 26
            } else {
                p[0] as int
            }))
            &&& forall|i: int|
                0 < i < n - 1 ==> #[trigger] q[i] == (if m.walzen[i + 1].has_notch(p[i + 1] as int)
                    || m.walzen[i].has_notch(p[i] as int) {
                    (p[i] + 1) % 26
                } else {
                    p[i] as int
                })
        }),
{
}

/// The entry wheel is applied on the way in and undone on the way out: a
/// machine with entry wheel `E` and no plugboard connections enciphers `c`
/// as `E` backwards applied to what the same machine with a straight
/// entry wheel enciphers `E(c)` as.
pub proof fn law_entry_wheel_conjugates(m1: EnigmaView, m2: EnigmaView, c: int)
    requires
        m1.wf(),
        m1.steckbrett == identity_board(),
        m2 == (EnigmaView { eintrittswalze: m2.eintrittswalze, ..m1 }),
        m2.eintrittswalze.wiring() == Seq::new(26, |i: int| i),
        m2.eintrittswalze.backward() == Seq::new(26, |i: int| i),
        0 <= c < 26,
    ensures
        m1.encipher(c) == m1.eintrittswalze.backward()[m2.encipher(m1.eintrittswalze.wiring()[c])],
{
    m1.eintrittswalze.lemma_wiring();
    let e = m1.eintrittswalze.wiring()[c];
    assert(m1.steckbrett[c] as int == c);
    assert(m2.steckbrett[e] as int == e);
    lemma_forward_same(m1, m2, e, 0);
    lemma_forward_range(m1, e, 0);
    let u = m1.umkehrwalze.wiring()[m1.forward(e, 0)];
    m1.umkehrwalze.lemma_wiring();
    lemma_backward_range(m1, u, m1.walzen.len() as int);
    lemma_backward_same(m1, m2, u, m1.walzen.len() as int);
    let b = m1.backward(u, m1.walzen.len() as int);
    assert(m2.steckbrett[b] as int == b);
    assert(m2.encipher(e) == b);
    let x = m1.eintrittswalze.backward()[b];
    assert(m1.steckbrett[x] as int == x);
}

/// The plugboard is passed on the way in and on the way out: a machine
/// enciphers `c` as its plugboard applied to what the same machine without
/// plugboard connections enciphers the plugboard's partner of `c` as.
pub proof fn law_plugboard_conjugates(m1: EnigmaView, m2: EnigmaView, c: int)
    requires
        m1.wf(),
        m2 == (EnigmaView { steckbrett: identity_board(), ..m1 }),
        0 <= c < 26,
    ensures
        m1.encipher(c) == m1.steckbrett[m2.encipher(m1.steckbrett[c] as int)] as int,
{
    m1.eintrittswalze.lemma_wiring();
    m1.umkehrwalze.lemma_wiring();
    let p = m1.steckbrett[c] as int;
    assert(m2.steckbrett[p] as int == p);
    let e = m1.eintrittswalze.wiring()[p];
    lemma_forward_same(m1, m2, e, 0);
    lemma_forward_range(m1, e, 0);
    let u = m1.umkehrwalze.wiring()[m1.forward(e, 0)];
    lemma_backward_same(m1, m2, u, m1.walzen.len() as int);
    lemma_backward_range(m1, u, m1.walzen.len() as int);
    let x = m1.eintrittswalze.backward()[m1.backward(u, m1.walzen.len() as int)];
    assert(m2.steckbrett[x] as int == x);
}

/// Turning a rotor one letter on together with its ring leaves the wiring
/// where it was: a machine whose positions and ring settings are all one
/// higher (modulo 26) lights up the same letters.
pub proof fn law_ring_position_shift(m1: EnigmaView, m2: EnigmaView, c: int)
    requires
        m1.wf(),
        m2 == (EnigmaView {
            walzen_stellung: Seq::new(m1.walzen.len(), |i: int| ((m1.walzen_stellung[i] + 1) % 26) as u8),
            ring_stellung: Seq::new(m1.walzen.len(), |i: int| ((m1.ring_stellung[i] + 1) % 26) as u8),
            ..m1
        }),
    ensures
        m1.encipher(c) == m2.encipher(c),
{
    assert forall|i: int|
        #![trigger m1.walzen[i]]
        0 <= i < m1.walzen.len() implies m1.walzen[i].wiring() == m2.walzen[i].wiring()
            && m1.walzen[i].backward() == m2.walzen[i].backward() && m1.offset(i) == m2.offset(i) by {
        let p = m1.walzen_stellung[i] as int;
        let r = m1.ring_stellung[i] as int;
        assert(m2.walzen_stellung[i] as int == (p + 1) % 26);
        assert(m2.ring_stellung[i] as int == (r + 1) % 26);
    }
    law_encipher_by_offsets(m1, m2, c);
}

/// Without rotors and plugboard connections a key lights up the entry
/// wheel's backward wiring of the reflector's wiring of the entry wheel's
/// wiring of the key.
pub proof fn law_no_rotors(m: EnigmaView, c: int)
    requires
        m.wf(),
        m.walzen.len() == 0,
        m.steckbrett == identity_board(),
        0 <= c < 26,
    ensures
        m.encipher(c) == m.eintrittswalze.backward()[m.umkehrwalze.wiring()[m.eintrittswalze.wiring()[c]]],
{
    m.eintrittswalze.lemma_wiring();
    m.umkehrwalze.lemma_wiring();
    assert(m.steckbrett[c] as int == c);
    let x = m.eintrittswalze.backward()[m.umkehrwalze.wiring()[m.eintrittswalze.wiring()[c]]];
    assert(m.steckbrett[x] as int == x);
}

/// Two machines with the same wirings for every wheel and the same
/// plugboard that turn each rotor's wiring by the same offset (position
/// minus ring setting) light up the same letter for every key.
pub proof fn law_encipher_by_offsets(m1: EnigmaView, m2: EnigmaView, c: int)
    requires
        m1.walzen.len() == m2.walzen.len(),
        m1.eintrittswalze.wiring() == m2.eintrittswalze.wiring(),
        m1.eintrittswalze.backward() == m2.eintrittswalze.backward(),
        m1.umkehrwalze.wiring() == m2.umkehrwalze.wiring(),
        m1.steckbrett == m2.steckbrett,
        forall|i: int|
            #![trigger m1.walzen[i]]
            0 <= i < m1.walzen.len() ==> m1.walzen[i].wiring() == m2.walzen[i].wiring()
                && m1.walzen[i].backward() == m2.walzen[i].backward() && m1.offset(i) == m2.offset(i),
    ensures
        m1.encipher(c) == m2.encipher(c),
{
    let n = m1.walzen.len() as int;
    let p = m1.steckbrett[c] as int;
    let e = m1.eintrittswalze.wiring()[p];
    lemma_forward_same(m1, m2, e, 0);
    let u = m1.umkehrwalze.wiring()[m1.forward(e, 0)];
    lemma_backward_same(m1, m2, u, n);
}

proof fn lemma_forward_same(m1: EnigmaView, m2: EnigmaView, c: int, k: int)
    requires
        m1.walzen.len() == m2.walzen.len(),
        forall|i: int|
            #![trigger m1.walzen[i]]
            0 <= i < m1.walzen.len() ==> m1.walzen[i].wiring() == m2.walzen[i].wiring()
                && m1.walzen[i].backward() == m2.walzen[i].backward() && m1.offset(i) == m2.offset(i),
    ensures
        m1.forward(c, k) == m2.forward(c, k),
    decreases m1.walzen.len() - k,
{
    if 0 <= k < m1.walzen.len() {
        lemma_forward_same(m1, m2, c, k + 1);
        assert(m1.walzen[k].wiring() == m2.walzen[k].wiring());
    }
}

proof fn lemma_backward_same(m1: EnigmaView, m2: EnigmaView, c: int, k: int)
    requires
        m1.walzen.len() == m2.walzen.len(),
        k <= m1.walzen.len(),
        forall|i: int|
            #![trigger m1.walzen[i]]
            0 <= i < m1.walzen.len() ==> m1.walzen[i].wiring() == m2.walzen[i].wiring()
                && m1.walzen[i].backward() == m2.walzen[i].backward() && m1.offset(i) == m2.offset(i),
    ensures
        m1.backward(c, k) == m2.backward(c, k),
    decreases k,
{
    if k > 0 {
        lemma_backward_same(m1, m2, c, k - 1);
        assert(m1.walzen[k - 1].backward() == m2.walzen[k - 1].backward());
    }
}

/// Typing depends only on what the wheels do, not on which values they
/// are: two machines whose wheels have the same wirings and notches, with
/// the same settings and plugboard, produce the same text and end with the
/// same rotor positions. So `new` gives the same machine as setting the
/// entry wheel ETW and reflector B explicitly.
pub proof fn law_encode_same_wirings(m1: EnigmaView, m2: EnigmaView, s: Seq<char>)
    requires
        m1.walzen.len() == m2.walzen.len(),
        m1.eintrittswalze.wiring() == m2.eintrittswalze.wiring(),
        m1.eintrittswalze.backward() == m2.eintrittswalze.backward(),
        m1.umkehrwalze.wiring() == m2.umkehrwalze.wiring(),
        m1.steckbrett == m2.steckbrett,
        m1.ring_stellung == m2.ring_stellung,
        m1.walzen_stellung == m2.walzen_stellung,
        forall|i: int|
            #![trigger m1.walzen[i]]
            0 <= i < m1.walzen.len() ==> m1.walzen[i].wiring() == m2.walzen[i].wiring()
                && m1.walzen[i].backward() == m2.walzen[i].backward(),
        forall|i: int, p: int|
            0 <= i < m1.walzen.len() ==> #[trigger] m1.walzen[i].has_notch(p) == m2.walzen[i].has_notch(p),
    ensures
        m1.encode_text(s) == m2.encode_text(s),
        m1.after(s.len()).walzen_stellung == m2.after(s.len()).walzen_stellung,
{
    assert forall|k: nat| #[trigger] m1.after(k).walzen_stellung == m2.after(k).walzen_stellung by {
        lemma_after_same_positions(m1, m2, k);
    }
    assert forall|i: int| 0 <= i < s.len() implies #[trigger] m1.encode_text(s)[i] == m2.encode_text(s)[i] by {
        let k = (i + 1) as nat;
        lemma_after_same_positions(m1, m2, k);
        let a1 = m1.after(k);
        let a2 = m2.after(k);
        assert forall|j: int|
            #![trigger a1.walzen[j]]
            0 <= j < a1.walzen.len() implies a1.walzen[j].wiring() == a2.walzen[j].wiring()
                && a1.walzen[j].backward() == a2.walzen[j].backward() && a1.offset(j) == a2.offset(j) by {
            assert(m1.walzen[j] == a1.walzen[j]);
        }
        law_encipher_by_offsets(a1, a2, letter_index(s[i]));
    }
    assert(m1.encode_text(s) =~= m2.encode_text(s));
}

proof fn lemma_after_same_positions(m1: EnigmaView, m2: EnigmaView, k: nat)
    requires
        m1.walzen.len() == m2.walzen.len(),
        m1.walzen_stellung == m2.walzen_stellung,
        forall|i: int, p: int|
            0 <= i < m1.walzen.len() ==> #[trigger] m1.walzen[i].has_notch(p) == m2.walzen[i].has_notch(p),
    ensures
        m1.after(k).walzen_stellung == m2.after(k).walzen_stellung,
        m1.after(k) == (EnigmaView { walzen_stellung: m1.after(k).walzen_stellung, ..m1 }),
        m2.after(k) == (EnigmaView { walzen_stellung: m2.after(k).walzen_stellung, ..m2 }),
    decreases k,
{
    if k > 0 {
        lemma_after_same_positions(m1, m2, (k - 1) as nat);
        let a1 = m1.after((k - 1) as nat);
        let a2 = m2.after((k - 1) as nat);
        assert forall|i: int| 0 <= i < a1.walzen.len() implies #[trigger] a1.steps(i) == a2.steps(i) by {
            if i + 1 < a1.walzen.len() {
                assert(a1.walzen[i + 1].has_notch(a1.walzen_stellung[i + 1] as int) == a2.walzen[i
                    + 1].has_notch(a2.walzen_stellung[i + 1] as int));
            }
            assert(a1.walzen[i].has_notch(a1.walzen_stellung[i] as int) == a2.walzen[i].has_notch(
                a2.walzen_stellung[i] as int,
            ));
        }
        assert(a1.stepped().walzen_stellung =~= a2.stepped().walzen_stellung);
    }
}

/// The wiring of one of the rotors I to VIII.
pub open spec fn is_standard_rotor_wiring(w: Seq<int>) -> bool {
    ||| w == wiring_of("EKMFLGDQVZNTOWYHXUSPAIBRCJ"@)
    ||| w == wiring_of("AJDKSIRUXBLHWTMCQGZNPYFVOE"@)
    ||| w == wiring_of("BDFHJLCPRTXVZNYEIWGAKMUSQO"@)
    ||| w == wiring_of("ESOVPZJAYQUIRHXLNFTGKDCMWB"@)
    ||| w == wiring_of("VZBRGITYUPSDNHLXAWMJQOFECK"@)
    ||| w == wiring_of("JPGVOUMFYQBENHZRDKASXLICTW"@)
    ||| w == wiring_of("NZJHGRCXMYSWBOUFAIVLPEKQDT"@)
    ||| w == wiring_of("FKQHTLXOCBJSPDZRAMEWNIUYGV"@)
}

/// The wiring of one of the reflectors A, B and C.
pub open spec fn is_standard_reflector_wiring(w: Seq<int>) -> bool {
    ||| w == wiring_of("EJMZALYXVBWFCRQUONTSPIKHGD"@)
    ||| w == wiring_of("YRUHQSLDPXNGOKMIEBFZCWVJAT"@)
    ||| w == wiring_of("FVPJIAOYEDRZXWGCTKUQSBNMHL"@)
}

/// A machine built from the wheels that come with the library (the
/// standard entry wheel, any of the rotors I to VIII, any of the
/// reflectors A, B and C) whose plugboard connects letters in pairs is
/// reciprocal, so by `law_encode_text_twice` it deciphers what it enciphers.
pub proof fn law_standard_machine_reciprocal(m: EnigmaView)
    requires
        m.wf(),
        is_entry_wheel(m.eintrittswalze, "ABCDEFGHIJKLMNOPQRSTUVWXYZ"@, "ETW"@),
        forall|i: int|
            0 <= i < m.walzen.len() ==> is_standard_rotor_wiring(#[trigger] m.walzen[i].wiring()),
        forall|i: int|
            0 <= i < m.walzen.len() ==> #[trigger] m.walzen[i].backward() == inverse_wiring(
                m.walzen[i].wiring(),
            ),
        is_standard_reflector_wiring(m.umkehrwalze.wiring()),
        is_board_involution(m.steckbrett),
    ensures
        m.is_reciprocal(),
{
    law_standard_wheels();
    assert forall|i: int| 0 <= i < 26 implies #[trigger] board_wiring(m.steckbrett)[board_wiring(
        m.steckbrett,
    )[i]] == i by {
        assert(m.steckbrett[m.steckbrett[i] as int] == i);
    }
}

/// All characters are uppercase letters.
pub open spec fn all_upper(s: Seq<char>) -> bool {
    forall|i: int| 0 <= i < s.len() ==> is_upper(#[trigger] s[i])
}

/// `i` is the first position of `s` that is not an uppercase letter.
pub open spec fn is_first_non_upper(s: Seq<char>, i: int) -> bool {
    &&& 0 <= i < s.len()
    &&& !is_upper(s[i])
    &&& forall|j: int| 0 <= j < i ==> is_upper(#[trigger] s[j])
}

/// A rotor position or ring setting as the operator sets it: 1..=26.
pub open spec fn is_setting(x: u8) -> bool {
    1 <= x && x <= 26
}

/// All settings are in 1..=26.
pub open spec fn all_settings(s: Seq<u8>) -> bool {
    forall|i: int| 0 <= i < s.len() ==> is_setting(#[trigger] s[i])
}

/// `i` is the first setting out of 1..=26.
pub open spec fn is_first_bad_setting(s: Seq<u8>, i: int) -> bool {
    &&& 0 <= i < s.len()
    &&& !is_setting(s[i])
    &&& forall|j: int| 0 <= j < i ==> is_setting(#[trigger] s[j])
}

/// Operator settings (1..=26) as the machine keeps them (0..=25).
pub open spec fn zero_based(s: Seq<u8>) -> Seq<u8> {
    Seq::new(s.len(), |i: int| (s[i] - 1) as u8)
}

/// Kept values (0..=25) as the operator reads them (1..=26).
pub open spec fn one_based(s: Seq<u8>) -> Seq<u8> {
    Seq::new(s.len(), |i: int| (s[i] % 26 + 1) as u8)
}

/// A rotor position or ring setting `v` (1 for `A`, ..., 26 for `Z`) puts
/// the rotor or ring at letter index `v - 1`, and a letter index `x` reads
/// back as `x + 1`.
pub proof fn law_setting_is_letter_index(s: Seq<u8>, p: Seq<u8>)
    requires
        all_settings(s),
        forall|i: int| 0 <= i < p.len() ==> #[trigger] p[i] < 26,
    ensures
        zero_based(s).len() == s.len(),
        forall|i: int| 0 <= i < s.len() ==> #[trigger] zero_based(s)[i] + 1 == s[i],
        forall|i: int| 0 <= i < s.len() ==> 0 <= #[trigger] zero_based(s)[i] < 26,
        one_based(p).len() == p.len(),
        forall|i: int| 0 <= i < p.len() ==> #[trigger] one_based(p)[i] == p[i] + 1,
{
}

/// Reading settings back gives what was set: `get_walzen_stellung` after a
/// successful `set_walzen_stellung` returns its argument (and the same for
/// the ring settings).
pub proof fn law_settings_read_back(s: Seq<u8>)
    requires
        all_settings(s),
    ensures
        one_based(zero_based(s)) == s,
{
    assert(one_based(zero_based(s)) =~= s);
}

/// Setting what was read leaves the machine as it was: `set_walzen_stellung`
/// with the result of `get_walzen_stellung` succeeds and changes nothing.
pub proof fn law_settings_set_back(p: Seq<u8>)
    requires
        forall|i: int| 0 <= i < p.len() ==> #[trigger] p[i] < 26,
    ensures
        all_settings(one_based(p)),
        zero_based(one_based(p)) == p,
{
    assert(zero_based(one_based(p)) =~= p);
}

/// Errors of the machine's settings and input. `message` gives the text
/// that describes one.
#[derive(Debug)]
pub enum EnigmaError {
    InvalidPlugboardConnection(String),
    OverlappingPlugboardConnection(String),
    InvalidWalzenStellung(u8),
    InvalidRingstellung(u8),
    InvalidCharactersInInput(char),
}

impl EnigmaError {
    /// The text that describes the error.
    pub open spec fn spec_message(&self) -> Seq<char> {
        match self {
            EnigmaError::InvalidPlugboardConnection(pair) => "Invalid plugboard connection: "@ + pair@
                + ". Each connection must be a pair of uppercase letters (A-Z) and cannot contain duplicates."@,
            EnigmaError::OverlappingPlugboardConnection(pair) => "Overlapping plugboard connection: "@
                + pair@ + ". Each letter can only be connected to one other letter."@,
            EnigmaError::InvalidWalzenStellung(stellung) => "Invalid Walzenstellung: "@ + decimal(
                *stellung as nat,
            ) + ". Each rotor position must be between 1 and 26."@,
            EnigmaError::InvalidRingstellung(stellung) => "Invalid Ringstellung: "@ + decimal(
                *stellung as nat,
            ) + ". Each ring setting must be between 1 and 26."@,
            EnigmaError::InvalidCharactersInInput(c) => "Invalid character in input: "@ + seq![*c]
                + ". Only uppercase letters (A-Z) are allowed."@,
        }
    }

    /// The text that describes the error, as its debug output shows it.
    pub fn message(&self) -> (r: String)
        ensures
            r@ == self.spec_message(),
    {
        match self {
            EnigmaError::InvalidPlugboardConnection(pair) => {
                let mut s = String::from_str("Invalid plugboard connection: ");
                s.append(pair.as_str());
                s.append(
                    ". Each connection must be a pair of uppercase letters (A-Z) and cannot contain duplicates.",
                );
                s
            },
            EnigmaError::OverlappingPlugboardConnection(pair) => {
                let mut s = String::from_str("Overlapping plugboard connection: ");
                s.append(pair.as_str());
                s.append(". Each letter can only be connected to one other letter.");
                s
            },
            EnigmaError::InvalidWalzenStellung(stellung) => {
                let mut s = String::from_str("Invalid Walzenstellung: ");
                push_decimal(&mut s, *stellung);
                s.append(". Each rotor position must be between 1 and 26.");
                s
            },
            EnigmaError::InvalidRingstellung(stellung) => {
                let mut s = String::from_str("Invalid Ringstellung: ");
                push_decimal(&mut s, *stellung);
                s.append(". Each ring setting must be between 1 and 26.");
                s
            },
            EnigmaError::InvalidCharactersInInput(c) => {
                let mut s = String::from_str("Invalid character in input: ");
                s.push(*c);
                s.append(". Only uppercase letters (A-Z) are allowed.");
                s
            },
        }
    }
}

/// An Enigma machine with `N_WALZEN` rotors.
#[derive(Clone, Copy)]
pub struct Enigma<const N_WALZEN: usize> {
    eintrittswalze: Eintrittswalze,
    walzen: [Walze; N_WALZEN],
    umkehrwalze: Umkehrwalze,
    ring_stellung: [u8; N_WALZEN],
    walzen_stellung: [u8; N_WALZEN],
    steckbrett: [u8; 26],
}

impl<const N_WALZEN: usize> View for Enigma<N_WALZEN> {
    type V = EnigmaView;

    closed spec fn view(&self) -> EnigmaView {
        EnigmaView {
            eintrittswalze: self.eintrittswalze,
            walzen: self.walzen@,
            umkehrwalze: self.umkehrwalze,
            ring_stellung: self.ring_stellung@,
            walzen_stellung: self.walzen_stellung@,
            steckbrett: self.steckbrett@,
        }
    }
}

impl<const N_WALZEN: usize> Enigma<N_WALZEN> {
    /// The machine's values are in range.
    pub open spec fn wf(&self) -> bool {
        self@.wf()
    }

    /// Moves the rotors on as one key press does.
    fn increment_walzen_stellung(&mut self)
        requires
            old(self).wf(),
        ensures
            final(self)@ == old(self)@.stepped(),
            final(self).wf(),
    {
        let ghost pre = self@;
        let before = self.walzen_stellung;
        let mut i: usize = 0;
        while i < N_WALZEN
            invariant
                i <= N_WALZEN,
                pre.wf(),
                self@.wf(),
                pre.walzen.len() == N_WALZEN,
                before@ == pre.walzen_stellung,
                self@ == (EnigmaView { walzen_stellung: self@.walzen_stellung, ..pre }),
                forall|j: int| 0 <= j < i ==> #[trigger] self@.walzen_stellung[j] == pre.stepped().walzen_stellung[j],
                forall|j: int| i <= j < N_WALZEN ==> #[trigger] self@.walzen_stellung[j] == pre.walzen_stellung[j],
            decreases N_WALZEN - i,
        {
            let mut moves = i + 1 == N_WALZEN;
            if !moves && self.walzen[i + 1].is_uebertragungskerbe(before[i + 1] as usize) {
                moves = true;
            }
            if !moves && i > 0 && i + 1 < N_WALZEN && self.walzen[i].is_uebertragungskerbe(before[i] as usize) {
                moves = true;
            }
            assert(moves == pre.steps(i as int));
            if moves {
                self.walzen_stellung[i] = (before[i] + 1) % 26;
            }
            i = i + 1;
        }
        assert(self@.walzen_stellung =~= pre.stepped().walzen_stellung);
    }

    /// Enciphers one letter after moving the rotors on.
    fn encode_char(&mut self, c: char) -> (r: char)
        requires
            old(self).wf(),
            is_upper(c),
        ensures
            final(self).wf(),
            final(self)@ == old(self)@.stepped(),
            r == index_letter(old(self)@.stepped().encipher(letter_index(c))),
            is_upper(r),
    {
        self.increment_walzen_stellung();
        let ghost m = self@;
        let mut x: u8 = (c as u8) - 65u8;
        x = self.steckbrett[x as usize];
        x = self.eintrittswalze.map_char(x);
        let ghost e = x as int;
        let mut i: usize = N_WALZEN;
        while i > 0
            invariant
                i <= N_WALZEN,
                self@ == m,
                m.wf(),
                x < 26,
                x as int == m.forward(e, i as int),
            decreases i,
        {
            i = i - 1;
            let s: u8 = (self.walzen_stellung[i] + 26 - self.ring_stellung[i]) % 26;
            x = self.walzen[i].map_char(x, s);
        }
        x = self.umkehrwalze.map_char(x);
        let ghost u = x as int;
        let mut i: usize = 0;
        while i < N_WALZEN
            invariant
                i <= N_WALZEN,
                self@ == m,
                m.wf(),
                x < 26,
                x as int == m.backward(u, i as int),
            decreases N_WALZEN - i,
        {
            let s: u8 = (self.walzen_stellung[i] + 26 - self.ring_stellung[i]) % 26;
            x = self.walzen[i].inverse_map_char(x, s);
            i = i + 1;
        }
        x = self.eintrittswalze.inverse_map_char(x);
        x = self.steckbrett[x as usize];
        (x + 65u8) as char
    }

    /// Encodes `input`, moving the rotors on before each letter as the
    /// machine does; the same input therefore encodes differently when the
    /// rotors are not set back. Only uppercase letters `A`-`Z` are accepted:
    /// otherwise the first other character is reported and nothing moves.
    pub fn encode(&mut self, input: &str) -> (r: Result<String, EnigmaError>)
        requires
            old(self).wf(),
        ensures
            final(self).wf(),
            all_upper(input@) ==> (r matches Ok(s) && s@ == old(self)@.encode_text(input@)
                && all_upper(s@) && final(self)@ == old(self)@.after(input@.len())),
            !all_upper(input@) ==> exists|i: int|
                is_first_non_upper(input@, i) && (r matches Err(
                    EnigmaError::InvalidCharactersInInput(c),
                ) && c == input@[i]) && final(self)@ == old(self)@,
    {
        let ghost pre = self@;
        for c in it: input.chars()
            invariant
                it.seq() == input@,
                forall|j: int| 0 <= j < it.index() ==> is_upper(#[trigger] input@[j]),
                self@ == pre,
                self.wf(),
        {
            if !('A' <= c && c <= 'Z') {
                assert(is_first_non_upper(input@, it.index() as int));
                return Err(EnigmaError::InvalidCharactersInInput(c));
            }
        }
        let mut out = String::new();
        for c in it: input.chars()
            invariant
                it.seq() == input@,
                all_upper(input@),
                self.wf(),
                self@ == pre.after(it.index() as nat),
                out@ == pre.encode_text(input@.take(it.index() as int)),
                all_upper(out@),
        {
            let ghost k = it.index() as int;
            let e = self.encode_char(c);
            out.push(e);
            assert(pre.encode_text(input@.take(k + 1)) =~= pre.encode_text(input@.take(k)).push(e));
        }
        assert(input@.take(input@.len() as int) =~= input@);
        Ok(out)
    }

    /// A machine with the given rotors, the standard entry wheel (ETW) and
    /// reflector B; rings and rotors at `A`, nothing plugged in. The wheels
    /// can be changed with `with_eintrittswalze` and `with_umkehrwalze`.
    pub fn new(walzen: [Walze; N_WALZEN]) -> (r: Self)
        ensures
            r.wf(),
            is_entry_wheel(r@.eintrittswalze, "ABCDEFGHIJKLMNOPQRSTUVWXYZ"@, "ETW"@),
            is_reflector(r@.umkehrwalze, "YRUHQSLDPXNGOKMIEBFZCWVJAT"@, "UKW B"@),
            r@.walzen == walzen@,
            r@.ring_stellung == Seq::new(N_WALZEN as nat, |i: int| 0u8),
            r@.walzen_stellung == Seq::new(N_WALZEN as nat, |i: int| 0u8),
            r@.steckbrett == identity_board(),
    {
        let mut enigma = Enigma {
            eintrittswalze: Eintrittswalze::etw(),
            walzen,
            umkehrwalze: Umkehrwalze::ukw_b(),
            ring_stellung: [0u8; N_WALZEN],
            walzen_stellung: [0u8; N_WALZEN],
            steckbrett: [0u8; 26],
        };
        enigma.reset_plugboard();
        assert(enigma@.ring_stellung =~= Seq::new(N_WALZEN as nat, |i: int| 0u8));
        assert(enigma@.walzen_stellung =~= Seq::new(N_WALZEN as nat, |i: int| 0u8));
        enigma
    }

    /// The same machine with another entry wheel.
    pub fn with_eintrittswalze(self, eintrittswalze: Eintrittswalze) -> (r: Self)
        requires
            self.wf(),
        ensures
            r.wf(),
            r@ == (EnigmaView { eintrittswalze, ..self@ }),
    {
        let mut e = self;
        e.eintrittswalze = eintrittswalze;
        e
    }

    /// The same machine with another reflector.
    pub fn with_umkehrwalze(self, umkehrwalze: Umkehrwalze) -> (r: Self)
        requires
            self.wf(),
        ensures
            r.wf(),
            r@ == (EnigmaView { umkehrwalze, ..self@ }),
    {
        let mut e = self;
        e.umkehrwalze = umkehrwalze;
        e
    }

    /// Unplugs every connection: each letter goes to itself.
    pub fn reset_plugboard(&mut self)
        ensures
            final(self)@ == (EnigmaView { steckbrett: identity_board(), ..old(self)@ }),
            old(self).wf() ==> final(self).wf(),
    {
        self.steckbrett = [0, 1, 2, 3, 4, 5, 6, 7, 8, 9, 10, 11, 12, 13, 14, 15, 16, 17, 18, 19, 20, 21, 22, 23, 24, 25];
        assert(self@.steckbrett =~= identity_board());
    }

    /// Connects the letters `a` and `b`, without checking what they were
    /// connected to.
    pub fn set_plug_unchecked(&mut self, a: char, b: char)
        requires
            old(self).wf(),
            is_plug_char(a),
            is_plug_char(b),
        ensures
            final(self).wf(),
            final(self)@ == (EnigmaView {
                steckbrett: plug(old(self)@.steckbrett, plug_index(a), plug_index(b)),
                ..old(self)@
            }),
    {
        let a: usize = ((a as u8) - 65u8) as usize;
        let b: usize = ((b as u8) - 65u8) as usize;
        self.steckbrett[a] = b as u8;
        self.steckbrett[b] = a as u8;
    }

    /// Sends the letters `a` and `b` back to themselves, without checking
    /// what they were connected to.
    pub fn reset_plug_unchecked(&mut self, a: char, b: char)
        requires
            old(self).wf(),
            is_plug_char(a),
            is_plug_char(b),
        ensures
            final(self).wf(),
            final(self)@ == (EnigmaView {
                steckbrett: old(self)@.steckbrett.update(plug_index(a), plug_index(a) as u8).update(
                    plug_index(b),
                    plug_index(b) as u8,
                ),
                ..old(self)@
            }),
    {
        let a: usize = ((a as u8) - 65u8) as usize;
        let b: usize = ((b as u8) - 65u8) as usize;
        self.steckbrett[a] = a as u8;
        self.steckbrett[b] = b as u8;
    }

    /// Unplugs everything, then connects the given pairs one after the
    /// other, without checking them.
    pub fn set_plugboard_unchecked(&mut self, connections: &[[char; 2]])
        requires
            old(self).wf(),
            are_plug_pairs(connections@),
        ensures
            final(self).wf(),
            final(self)@ == (EnigmaView {
                steckbrett: plug_pairs(identity_board(), connections@),
                ..old(self)@
            }),
    {
        self.reset_plugboard();
        let ghost pre = self@;
        let mut k: usize = 0;
        while k < connections.len()
            invariant
                k <= connections@.len(),
                self.wf(),
                are_plug_pairs(connections@),
                self@ == (EnigmaView {
                    steckbrett: plug_pairs(identity_board(), connections@.take(k as int)),
                    ..pre
                }),
            decreases connections@.len() - k,
        {
            let pair = connections[k];
            assert(pair == connections@[k as int]);
            assert(is_plug_char(connections@[k as int][0]) && is_plug_char(connections@[k as int][1]));
            assert(connections@.take(k + 1).drop_last() =~= connections@.take(k as int));
            self.set_plug_unchecked(pair[0], pair[1]);
            k = k + 1;
        }
        assert(connections@.take(k as int) =~= connections@);
    }

    /// The letter `c` is connected to another letter.
    pub fn is_plug_set(&self, c: char) -> (r: bool)
        requires
            self.wf(),
            is_plug_char(c),
        ensures
            r == (self@.steckbrett[plug_index(c)] != plug_index(c)),
    {
        let index: usize = ((c as u8) - 65u8) as usize;
        self.steckbrett[index] != index as u8
    }

    /// The number of connections: half the number of letters that are not
    /// sent to themselves.
    pub fn number_of_plugs_set(&self) -> (r: usize)
        requires
            self.wf(),
        ensures
            r == count_plugged(self@.steckbrett, 26) / 2,
    {
        let mut count: usize = 0;
        let mut i: usize = 0;
        while i < 26
            invariant
                i <= 26,
                self.wf(),
                count == count_plugged(self@.steckbrett, i as int),
                count <= i,
            decreases 26 - i,
        {
            if self.steckbrett[i] as usize != i {
                count = count + 1;
            }
            i = i + 1;
        }
        count / 2
    }

    /// The connections, each as its two letters with the smaller first, in
    /// alphabetical order.
    pub fn get_plugboard_mapping(&self) -> (r: Vec<[char; 2]>)
        requires
            self.wf(),
        ensures
            r@ == plug_mapping(self@.steckbrett, 26),
    {
        let mut mapping: Vec<[char; 2]> = Vec::new();
        let mut i: usize = 0;
        while i < 26
            invariant
                i <= 26,
                self.wf(),
                mapping@ == plug_mapping(self@.steckbrett, i as int),
            decreases 26 - i,
        {
            let mapped = self.steckbrett[i];
            if mapped != i as u8 && i < mapped as usize {
                mapping.push([((i as u8) + 65u8) as char, (mapped + 65u8) as char]);
            }
            i = i + 1;
        }
        mapping
    }

    /// Sets the rotor positions, 1..=26 each. On a value out of range the
    /// first such value is reported and nothing changes.
    pub fn set_walzen_stellung(&mut self, stellungen: [u8; N_WALZEN]) -> (r: Result<(), EnigmaError>)
        requires
            old(self).wf(),
        ensures
            final(self).wf(),
            all_settings(stellungen@) ==> r is Ok && final(self)@ == (EnigmaView {
                walzen_stellung: zero_based(stellungen@),
                ..old(self)@
            }),
            !all_settings(stellungen@) ==> exists|i: int|
                is_first_bad_setting(stellungen@, i) && (r matches Err(
                    EnigmaError::InvalidWalzenStellung(x),
                ) && x == stellungen@[i]) && final(self)@ == old(self)@,
    {
        let mut st = stellungen;
        let mut i: usize = 0;
        while i < N_WALZEN
            invariant
                i <= N_WALZEN,
                self.wf(),
                forall|j: int| 0 <= j < i ==> is_setting(#[trigger] stellungen@[j]),
                forall|j: int| 0 <= j < i ==> #[trigger] st@[j] == (stellungen@[j] - 1) as u8,
                forall|j: int| i <= j < N_WALZEN ==> #[trigger] st@[j] == stellungen@[j],
            decreases N_WALZEN - i,
        {
            if st[i] > 26 || st[i] == 0 {
                assert(is_first_bad_setting(stellungen@, i as int));
                return Err(EnigmaError::InvalidWalzenStellung(st[i]));
            }
            st[i] = (st[i] + 26 - 1) % 26;
            i = i + 1;
        }
        self.walzen_stellung = st;
        assert(self@.walzen_stellung =~= zero_based(stellungen@));
        Ok(())
    }

    /// Sets the ring settings, 1..=26 each. On a value out of range the
    /// first such value is reported and nothing changes.
    pub fn set_ringstellung(&mut self, ringstellungen: [u8; N_WALZEN]) -> (r: Result<(), EnigmaError>)
        requires
            old(self).wf(),
        ensures
            final(self).wf(),
            all_settings(ringstellungen@) ==> r is Ok && final(self)@ == (EnigmaView {
                ring_stellung: zero_based(ringstellungen@),
                ..old(self)@
            }),
            !all_settings(ringstellungen@) ==> exists|i: int|
                is_first_bad_setting(ringstellungen@, i) && (r matches Err(
                    EnigmaError::InvalidRingstellung(x),
                ) && x == ringstellungen@[i]) && final(self)@ == old(self)@,
    {
        let mut st = ringstellungen;
        let mut i: usize = 0;
        while i < N_WALZEN
            invariant
                i <= N_WALZEN,
                self.wf(),
                forall|j: int| 0 <= j < i ==> is_setting(#[trigger] ringstellungen@[j]),
                forall|j: int| 0 <= j < i ==> #[trigger] st@[j] == (ringstellungen@[j] - 1) as u8,
                forall|j: int| i <= j < N_WALZEN ==> #[trigger] st@[j] == ringstellungen@[j],
            decreases N_WALZEN - i,
        {
            if st[i] > 26 || st[i] == 0 {
                assert(is_first_bad_setting(ringstellungen@, i as int));
                return Err(EnigmaError::InvalidRingstellung(st[i]));
            }
            st[i] = (st[i] + 26 - 1) % 26;
            i = i + 1;
        }
        self.ring_stellung = st;
        assert(self@.ring_stellung =~= zero_based(ringstellungen@));
        Ok(())
    }

    /// The rotor positions as the operator reads them, 1..=26.
    pub fn get_walzen_stellung(&self) -> (r: [u8; N_WALZEN])
        requires
            self.wf(),
        ensures
            r@ == one_based(self@.walzen_stellung),
    {
        let mut st = [0u8; N_WALZEN];
        let mut i: usize = 0;
        while i < N_WALZEN
            invariant
                i <= N_WALZEN,
                self.wf(),
                forall|j: int| 0 <= j < i ==> #[trigger] st@[j] == (self@.walzen_stellung[j] % 26 + 1) as u8,
            decreases N_WALZEN - i,
        {
            st[i] = self.walzen_stellung[i] % 26 + 1;
            i = i + 1;
        }
        assert(st@ =~= one_based(self@.walzen_stellung));
        st
    }

    /// The ring settings as the operator reads them, 1..=26.
    pub fn get_ringstellung(&self) -> (r: [u8; N_WALZEN])
        requires
            self.wf(),
        ensures
            r@ == one_based(self@.ring_stellung),
    {
        let mut st = [0u8; N_WALZEN];
        let mut i: usize = 0;
        while i < N_WALZEN
            invariant
                i <= N_WALZEN,
                self.wf(),
                forall|j: int| 0 <= j < i ==> #[trigger] st@[j] == (self@.ring_stellung[j] % 26 + 1) as u8,
            decreases N_WALZEN - i,
        {
            st[i] = self.ring_stellung[i] % 26 + 1;
            i = i + 1;
        }
        assert(st@ =~= one_based(self@.ring_stellung));
        st
    }

    /// The rotors, leftmost first.
    pub fn get_rotors(&self) -> (r: [Walze; N_WALZEN])
        ensures
            r@ == self@.walzen,
    {
        self.walzen
    }

    /// Encodes `input` as `encode` does and sets the rotors back to where
    /// they stood, so that the same call gives the same result again.
    pub fn encode_and_reset(&mut self, input: &str) -> (r: Result<String, EnigmaError>)
        requires
            old(self).wf(),
        ensures
            final(self)@ == old(self)@,
            final(self).wf(),
            all_upper(input@) ==> (r matches Ok(s) && s@ == old(self)@.encode_text(input@) && all_upper(
                s@,
            )),
            !all_upper(input@) ==> exists|i: int|
                is_first_non_upper(input@, i) && (r matches Err(
                    EnigmaError::InvalidCharactersInInput(c),
                ) && c == input@[i]),
    {
        let walzen_stellung_before = self.walzen_stellung;
        let result = self.encode(input);
        self.walzen_stellung = walzen_stellung_before;
        proof {
            if all_upper(input@) {
                lemma_after_keeps_wheels(old(self)@, input@.len());
            }
        }
        result
    }

    /// Applies one word of a plugboard description, given its first two
    /// characters; `count` is its length, counted up to 3.
    fn plug_one_word(&mut self, first: char, second: char, count: usize, word: String) -> (r: Result<
        (),
        EnigmaError,
    >)
        requires
            old(self).wf(),
            count <= 3,
            count as int == if word@.len() < 3 {
                word@.len() as int
            } else {
                3
            },
            count >= 1 ==> first == word@[0],
            count >= 2 ==> second == word@[1],
        ensures
            final(self).wf(),
            final(self)@ == (EnigmaView {
                steckbrett: plug_word(old(self)@.steckbrett, word@).0,
                ..old(self)@
            }),
            plug_word(old(self)@.steckbrett, word@).1 matches Some(f) ==> match f {
                PlugFault::Invalid(w) => r matches Err(EnigmaError::InvalidPlugboardConnection(e))
                    && e@ == w,
                PlugFault::Overlapping(w) => r matches Err(
                    EnigmaError::OverlappingPlugboardConnection(e),
                ) && e@ == w,
            },
            plug_word(old(self)@.steckbrett, word@).1 is None ==> r is Ok,
    {
        if count != 2 || !('A' <= first && first <= 'Z') || !('A' <= second && second <= 'Z')
            || first == second {
            return Err(EnigmaError::InvalidPlugboardConnection(word));
        }
        let a: usize = ((first as u8) - 65u8) as usize;
        let b: usize = ((second as u8) - 65u8) as usize;
        if self.steckbrett[a] != a as u8 || self.steckbrett[b] != b as u8 {
            return Err(EnigmaError::OverlappingPlugboardConnection(word));
        }
        self.steckbrett[a] = b as u8;
        self.steckbrett[b] = a as u8;
        Ok(())
    }

    /// Sets the plugboard from space-separated letter pairs: "AD CN ET"
    /// connects A with D, C with N and E with T. The plugboard is first
    /// unplugged; then the words are applied in order. A word that is not
    /// exactly two different uppercase letters is refused as invalid, one
    /// with a letter that is already connected as overlapping; the words
    /// before it stay applied.
    #[verifier::spinoff_prover]
    pub fn set_plugboard(&mut self, connections: &str) -> (r: Result<(), EnigmaError>)
        requires
            old(self).wf(),
        ensures
            final(self).wf(),
            final(self)@ == (EnigmaView {
                steckbrett: plug_words(identity_board(), words(connections@)).0,
                ..old(self)@
            }),
            plug_words(identity_board(), words(connections@)).1 matches Some(f) ==> match f {
                PlugFault::Invalid(w) => r matches Err(EnigmaError::InvalidPlugboardConnection(e))
                    && e@ == w,
                PlugFault::Overlapping(w) => r matches Err(
                    EnigmaError::OverlappingPlugboardConnection(e),
                ) && e@ == w,
            },
            plug_words(identity_board(), words(connections@)).1 is None ==> r is Ok,
    {
        self.reset_plugboard();
        let ghost pre = self@;
        let ghost s = connections@;
        let mut word = String::new();
        let mut first: char = 'A';
        let mut second: char = 'A';
        let mut count: usize = 0;
        let mut in_word = false;
        for c in it: connections.chars()
            invariant
                it.seq() == s,
                s == connections@,
                self.wf(),
                pre == (EnigmaView { steckbrett: identity_board(), ..old(self)@ }),
                in_word == (it.index() > 0 && !is_ascii_whitespace(s[it.index() - 1])),
                ({
                    let ws = words(s.take(it.index() as int));
                    let done = if in_word {
                        ws.drop_last()
                    } else {
                        ws
                    };
                    &&& self@ == (EnigmaView {
                        steckbrett: plug_words(identity_board(), done).0,
                        ..pre
                    })
                    &&& plug_words(identity_board(), done).1 is None
                    &&& in_word ==> ws.len() > 0 && word@ == ws.last()
                }),
                in_word ==> count <= 3 && count as int == (if word@.len() < 3 {
                    word@.len() as int
                } else {
                    3
                }) && (count >= 1 ==> first == word@[0]) && (count >= 2 ==> second == word@[1]),
        {
            let ghost k = it.index() as int;
            let ghost p = s.take(k);
            assert(s.take(k + 1) =~= p.push(c));
            if c == ' ' || c == '\t' || c == '\n' || c == '\x0C' || c == '\r' {
                proof {
                    lemma_words_push_space(p, c);
                }
                if in_word {
                    let ghost ws = words(p);
                    let ghost done = ws.drop_last();
                    proof {
                        assert(ws =~= done.push(word@));
                        lemma_plug_words_push(identity_board(), done, word@);
                    }
                    let ghost wv = word@;
                    let ghost before = self@;
                    let w = word;
                    word = String::new();
                    match self.plug_one_word(first, second, count, w) {
                        Ok(()) => {},
                        Err(e) => {
                            proof {
                                lemma_fault_at_space(s, k);
                                assert(words(s.take(k + 1)) == ws);
                                assert(plug_words(identity_board(), ws) == plug_word(before.steckbrett, wv));
                            }
                            return Err(e);
                        },
                    }
                }
                in_word = false;
                count = 0;
            } else {
                proof {
                    lemma_words_push_letter(p, c);
                }
                if !in_word {
                    in_word = true;
                    word = String::new();
                    count = 0;
                    proof {
                        assert(words(p.push(c)).drop_last() =~= words(p));
                    }
                } else {
                    proof {
                        let ws = words(p);
                        assert(words(p.push(c)).drop_last() =~= ws.drop_last());
                    }
                }
                word.push(c);
                if count == 0 {
                    first = c;
                    count = 1;
                } else if count == 1 {
                    second = c;
                    count = 2;
                } else if count == 2 {
                    count = 3;
                }
            }
        }
        assert(s.take(s.len() as int) =~= s);
        if in_word {
            let ghost ws = words(s);
            let ghost done = ws.drop_last();
            proof {
                assert(ws =~= done.push(word@));
                lemma_plug_words_push(identity_board(), done, word@);
            }
            return self.plug_one_word(first, second, count, word);
        }
        Ok(())
    }
}

} // verus!
