//! The wheels of the machine: reflector (Umkehrwalze), entry wheel
//! (Eintrittswalze) and rotors (Walzen).
//!
//! A wheel is described by its wiring: the sequence of 26 letter indices
//! (0 for `A`, ..., 25 for `Z`) that the letters `A`..`Z` are sent to.
//! Internally the wiring is stored as offsets modulo 26, as the original
//! machine tables are usually given.
use vstd::prelude::*;

verus! {

/// An uppercase ASCII letter.
pub open spec fn is_upper(c: char) -> bool {
    'A' <= c && c <= 'Z'
}

/// The index of a letter in the alphabet (`A` is 0).
pub open spec fn letter_index(c: char) -> int {
    c as int - 65
}

/// The letter with the given index (0 is `A`).
pub open spec fn index_letter(x: int) -> char {
    (x + 65) as char
}

/// A string whose first 26 characters are uppercase letters.
pub open spec fn is_wiring_string(s: Seq<char>) -> bool {
    &&& s.len() >= 26
    &&& forall|i: int| 0 <= i < 26 ==> is_upper(#[trigger] s[i])
}

/// The wiring described by a mapping string: letter `i` goes to the
/// `i`-th character of the string.
pub open spec fn wiring_of(s: Seq<char>) -> Seq<int> {
    Seq::new(26, |i: int| letter_index(s[i]))
}

/// 26 letter indices.
pub open spec fn is_wiring(w: Seq<int>) -> bool {
    &&& w.len() == 26
    &&& forall|i: int| 0 <= i < 26 ==> 0 <= #[trigger] w[i] < 26
}

/// Some letter is sent to `c`.
pub open spec fn is_hit(w: Seq<int>, c: int) -> bool {
    exists|i: int| 0 <= i < 26 && #[trigger] w[i] == c
}

/// A wiring that is a bijection of the alphabet.
pub open spec fn is_permutation(w: Seq<int>) -> bool {
    &&& is_wiring(w)
    &&& forall|i: int, j: int| 0 <= i < 26 && 0 <= j < 26 && i != j ==> w[i] != w[j]
    &&& forall|c: int| 0 <= c < 26 ==> #[trigger] is_hit(w, c)
}

/// A wiring that is its own inverse, as a reflector must be.
pub open spec fn is_involution(w: Seq<int>) -> bool {
    &&& is_wiring(w)
    &&& forall|i: int| 0 <= i < 26 ==> #[trigger] w[w[i]] == i
}

/// The last of the first `n` letters that the wiring sends to `c`, or -1.
pub open spec fn last_preimage(w: Seq<int>, c: int, n: int) -> int
    decreases n,
{
    if n <= 0 {
        -1
    } else if w[n - 1] == c {
        n - 1
    } else {
        last_preimage(w, c, n - 1)
    }
}

/// The backward wiring that the entry wheel and the rotors compute from a
/// forward wiring: letter `c` goes back to the last letter that is sent to
/// `c`, and stays itself when no letter is sent to it. For a permutation
/// this is the inverse permutation.
pub open spec fn inverse_wiring(w: Seq<int>) -> Seq<int> {
    Seq::new(
        26,
        |c: int|
            {
                let i = last_preimage(w, c, 26);
                if i >= 0 {
                    i
                } else {
                    c
                }
            },
    )
}

/// The letter that a rotor with wiring `w`, turned by `s` steps, sends `c` to.
pub open spec fn rotor_forward(w: Seq<int>, c: int, s: int) -> int {
    (w[(c + s) % 26] + 26 - s) % 26
}

/// The same for the backward direction, with backward wiring `v`.
pub open spec fn rotor_backward(v: Seq<int>, c: int, s: int) -> int {
    (v[(c + s) % 26] + 26 - s) % 26
}

proof fn lemma_offset_roundtrip(x: int, j: int)
    requires
        0 <= x < 26,
        0 <= j < 26,
    ensures
        0 <= (x + 26 - j) % 26 < 26,
        (j + (x + 26 - j) % 26) % 26 == x,
{
}

proof fn lemma_offset_shift(c: int, s: int, m: int, w: int)
    requires
        0 <= c < 26,
        0 <= s < 26,
        0 <= m < 26,
        w == ((c + s) % 26 + m) % 26,
    ensures
        (c + m) % 26 == (w + 26 - s) % 26,
{
    let j = if c + s < 26 {
        c + s
    } else {
        c + s - 26
    };
    assert((c + s) % 26 == j);
    let v = if j + m < 26 {
        j + m
    } else {
        j + m - 26
    };
    assert((j + m) % 26 == v);
    // w + 26 - s is c + m plus a multiple of 26 between -26 and 26
    let d = w + 26 - s - (c + m);
    assert(d == 26 || d == 0 || d == -26);
    if d == 26 {
        assert((c + m + 26) % 26 == (c + m) % 26);
    } else if d == -26 {
        assert((c + m - 26) % 26 == (c + m) % 26);
    }
}

proof fn lemma_last_preimage_bounds(w: Seq<int>, c: int, n: int)
    requires
        0 <= n,
    ensures
        -1 <= last_preimage(w, c, n) < n,
        last_preimage(w, c, n) >= 0 ==> w[last_preimage(w, c, n)] == c,
    decreases n,
{
    if n > 0 {
        lemma_last_preimage_bounds(w, c, n - 1);
    }
}

proof fn lemma_last_preimage_step(w: Seq<int>, c: int, n: int)
    requires
        n >= 0,
    ensures
        last_preimage(w, c, n + 1) == (if w[n] == c {
            n
        } else {
            last_preimage(w, c, n)
        }),
{
}

proof fn lemma_last_preimage_found(w: Seq<int>, c: int, n: int, i: int)
    requires
        0 <= i < n,
        w[i] == c,
        forall|j: int| i < j < n ==> w[j] != c,
    ensures
        last_preimage(w, c, n) == i,
    decreases n,
{
    if n - 1 != i {
        lemma_last_preimage_found(w, c, n - 1, i);
    }
}

/// For a permutation, the backward wiring undoes the forward wiring and
/// the forward wiring undoes the backward wiring.
pub proof fn lemma_inverse_of_permutation(w: Seq<int>)
    requires
        is_permutation(w),
    ensures
        is_permutation(inverse_wiring(w)),
        forall|i: int| 0 <= i < 26 ==> #[trigger] inverse_wiring(w)[w[i]] == i,
        forall|c: int| 0 <= c < 26 ==> #[trigger] w[inverse_wiring(w)[c]] == c,
{
    let v = inverse_wiring(w);
    assert forall|i: int| 0 <= i < 26 implies #[trigger] v[w[i]] == i by {
        assert forall|j: int| i < j < 26 implies w[j] != w[i] by {}
        lemma_last_preimage_found(w, w[i], 26, i);
    }
    assert forall|c: int| 0 <= c < 26 implies #[trigger] w[v[c]] == c by {
        assert(is_hit(w, c));
        let i = choose|i: int| 0 <= i < 26 && #[trigger] w[i] == c;
        assert(v[w[i]] == i);
    }
    assert forall|c: int| 0 <= c < 26 implies 0 <= #[trigger] v[c] < 26 by {
        lemma_last_preimage_bounds(w, c, 26);
    }
    assert forall|i: int, j: int| 0 <= i < 26 && 0 <= j < 26 && i != j implies v[i] != v[j] by {
        assert(w[v[i]] == i);
        assert(w[v[j]] == j);
    }
    assert forall|c: int| 0 <= c < 26 implies #[trigger] is_hit(v, c) by {
        assert(v[w[c]] == c);
    }
}

/// A rotor map followed by the backward map of the inverse wiring, at the
/// same rotor offset, gives back the letter; and the other way round.
pub proof fn lemma_rotor_roundtrip(w: Seq<int>, c: int, s: int)
    requires
        is_permutation(w),
        0 <= c < 26,
        0 <= s < 26,
    ensures
        rotor_backward(inverse_wiring(w), rotor_forward(w, c, s), s) == c,
        rotor_forward(w, rotor_backward(inverse_wiring(w), c, s), s) == c,
        0 <= rotor_forward(w, c, s) < 26,
        0 <= rotor_backward(inverse_wiring(w), c, s) < 26,
{
    lemma_inverse_of_permutation(w);
    let v = inverse_wiring(w);
    let j = (c + s) % 26;
    let f = rotor_forward(w, c, s);
    assert((f + s) % 26 == w[j]);
    assert(v[w[j]] == j);
    let b = rotor_backward(v, c, s);
    assert((b + s) % 26 == v[j]);
    assert(w[v[j]] == j);
}

/// The reflector (Umkehrwalze).
#[derive(Clone, Copy)]
pub struct Umkehrwalze {
    mapping: [u8; 26],
    name: &'static str,
}

/// The entry wheel (Eintrittswalze): a wiring together with its backward
/// wiring.
#[derive(Clone, Copy)]
pub struct Eintrittswalze {
    inner_walze: Umkehrwalze,
    inverse_mapping: [u8; 26],
}

/// A rotor (Walze) with its turnover notches (Übertragungskerben), one bit
/// per letter position.
#[derive(Clone, Copy)]
pub struct Walze {
    inner_walze: Eintrittswalze,
    uebertragungskerben: u32,
}

/// The offsets of a wiring, reading a mapping string.
fn wiring_offsets(mapping: &str) -> (arr: [u8; 26])
    requires
        is_wiring_string(mapping@),
    ensures
        forall|i: int| 0 <= i < 26 ==> #[trigger] arr[i] < 26,
        forall|i: int| 0 <= i < 26 ==> (i + #[trigger] arr[i]) % 26 == wiring_of(mapping@)[i],
{
    let mut arr = [0u8;26];
    let mut i: usize = 0;
    while i < 26
        invariant
            i <= 26,
            is_wiring_string(mapping@),
            forall|j: int| 0 <= j < i ==> #[trigger] arr[j] < 26,
            forall|j: int| 0 <= j < i ==> (j + #[trigger] arr[j]) % 26 == wiring_of(mapping@)[j],
        decreases 26 - i,
    {
        let c = mapping.get_char(i);
        assert(is_upper(mapping@[i as int]));
        let x: u8 = (c as u8) - 65u8;
        let off: u8 = (x + 26 - (i as u8)) % 26;
        proof {
            lemma_offset_roundtrip(x as int, i as int);
        }
        arr[i] = off;
        i = i + 1;
    }
    arr
}

impl Umkehrwalze {
    /// Offsets below 26.
    #[verifier::type_invariant]
    spec fn inv(&self) -> bool {
        forall|i: int| 0 <= i < 26 ==> #[trigger] self.mapping[i] < 26
    }

    /// The wiring: letter `i` goes to letter `wiring()[i]`.
    pub closed spec fn wiring(&self) -> Seq<int> {
        Seq::new(26, |i: int| (i + self.mapping[i]) % 26)
    }

    pub closed spec fn spec_name(&self) -> &'static str {
        self.name
    }

    /// The wiring sends every letter to a letter.
    pub proof fn lemma_wiring(&self)
        ensures
            is_wiring(self.wiring()),
    {
    }

    /// The name of the wheel.
    pub fn name(&self) -> (r: &'static str)
        ensures
            r == self.spec_name(),
    {
        self.name
    }

    /// Creates a reflector whose letter `i` is sent to the `i`-th letter of
    /// `mapping`. A reflector is meant to be an involution without fixed
    /// points (see `is_involution`), which this does not check.
    pub fn new(mapping: &str) -> (r: Self)
        requires
            is_wiring_string(mapping@),
        ensures
            r.wiring() == wiring_of(mapping@),
            r.spec_name()@ == Seq::<char>::empty(),
    {
        let arr = wiring_offsets(mapping);
        let r = Umkehrwalze { mapping: arr, name: "" };
        proof {
            reveal_strlit("");
        }
        assert(r.wiring() =~= wiring_of(mapping@));
        r
    }

    /// The same wheel under another name.
    pub fn with_name(self, name: &'static str) -> (r: Self)
        ensures
            r.wiring() == self.wiring(),
            r.spec_name() == name,
    {
        proof {
            use_type_invariant(&self);
        }
        let r = Umkehrwalze { mapping: self.mapping, name };
        assert(r.mapping@ =~= self.mapping@);
        r
    }

    pub(crate) fn map_char(&self, c: u8) -> (r: u8)
        requires
            c < 26,
        ensures
            r == self.wiring()[c as int],
            r < 26,
    {
        proof {
            use_type_invariant(self);
        }
        (c + self.mapping[c as usize]) % 26
    }

    /// Reflector A.
    pub fn ukw_a() -> (r: Self)
        ensures
            is_reflector(r, "EJMZALYXVBWFCRQUONTSPIKHGD"@, "UKW A"@),
    {
        let m = "EJMZALYXVBWFCRQUONTSPIKHGD";
        proof {
            reveal_strlit("EJMZALYXVBWFCRQUONTSPIKHGD");
        }
        Umkehrwalze::new(m).with_name("UKW A")
    }

    /// Reflector B, the one the machine has by default.
    pub fn ukw_b() -> (r: Self)
        ensures
            is_reflector(r, "YRUHQSLDPXNGOKMIEBFZCWVJAT"@, "UKW B"@),
    {
        let m = "YRUHQSLDPXNGOKMIEBFZCWVJAT";
        proof {
            reveal_strlit("YRUHQSLDPXNGOKMIEBFZCWVJAT");
        }
        Umkehrwalze::new(m).with_name("UKW B")
    }

    /// Reflector C.
    pub fn ukw_c() -> (r: Self)
        ensures
            is_reflector(r, "FVPJIAOYEDRZXWGCTKUQSBNMHL"@, "UKW C"@),
    {
        let m = "FVPJIAOYEDRZXWGCTKUQSBNMHL";
        proof {
            reveal_strlit("FVPJIAOYEDRZXWGCTKUQSBNMHL");
        }
        Umkehrwalze::new(m).with_name("UKW C")
    }
}


/// A reflector with the given wiring and name.
pub open spec fn is_reflector(u: Umkehrwalze, mapping: Seq<char>, name: Seq<char>) -> bool {
    &&& u.wiring() == wiring_of(mapping)
    &&& u.spec_name()@ == name
}

/// An entry wheel with the given wiring and name.
pub open spec fn is_entry_wheel(e: Eintrittswalze, mapping: Seq<char>, name: Seq<char>) -> bool {
    &&& e.wiring() == wiring_of(mapping)
    &&& e.backward() == inverse_wiring(wiring_of(mapping))
    &&& e.spec_name()@ == name
}

/// A rotor with the given wiring, notches at exactly the
/// positions `notch_a` and `notch_b` (which may coincide), and name.
pub open spec fn is_rotor(r: Walze, mapping: Seq<char>, notch_a: int, notch_b: int, name: Seq<char>) -> bool {
    &&& r.wiring() == wiring_of(mapping)
    &&& r.backward() == inverse_wiring(wiring_of(mapping))
    &&& forall|p: int| #[trigger] r.has_notch(p) <==> (p == notch_a || p == notch_b)
    &&& r.spec_name()@ == name
}

proof fn lemma_notch_bit(m: u32, k: u32, p: u32)
    by (bit_vector)
    requires
        k < 32,
        p < 32,
    ensures
        ((m | (1u32 << k)) & (1u32 << p) != 0) == ((m & (1u32 << p) != 0) || p == k),
{
}

proof fn lemma_no_notch_bit(p: u32)
    by (bit_vector)
    requires
        p < 32,
    ensures
        0u32 & (1u32 << p) == 0,
{
}

impl Eintrittswalze {
    /// Backward offsets below 26.
    #[verifier::type_invariant]
    spec fn inv(&self) -> bool {
        forall|i: int| 0 <= i < 26 ==> #[trigger] self.inverse_mapping[i] < 26
    }

    /// The forward wiring.
    pub closed spec fn wiring(&self) -> Seq<int> {
        self.inner_walze.wiring()
    }

    /// The backward wiring.
    pub closed spec fn backward(&self) -> Seq<int> {
        Seq::new(26, |c: int| (c + self.inverse_mapping[c]) % 26)
    }

    pub closed spec fn spec_name(&self) -> &'static str {
        self.inner_walze.spec_name()
    }

    /// Both wirings send every letter to a letter.
    pub proof fn lemma_wiring(&self)
        ensures
            is_wiring(self.wiring()),
            is_wiring(self.backward()),
    {
    }

    /// The name of the wheel.
    pub fn name(&self) -> (r: &'static str)
        ensures
            r == self.spec_name(),
    {
        self.inner_walze.name()
    }

    /// Creates an entry wheel whose letter `i` is wired to the `i`-th
    /// letter of `mapping`; the backward wiring is `inverse_wiring` of it.
    pub fn new(mapping: &str) -> (r: Self)
        requires
            is_wiring_string(mapping@),
        ensures
            r.wiring() == wiring_of(mapping@),
            r.backward() == inverse_wiring(wiring_of(mapping@)),
            r.spec_name()@ == Seq::<char>::empty(),
    {
        let inner = Umkehrwalze::new(mapping);
        let ghost w = wiring_of(mapping@);
        let mut inv = [0u8;26];
        let mut i: usize = 0;
        while i < 26
            invariant
                i <= 26,
                inner.wiring() == w,
                is_wiring(w),
                forall|c: int| 0 <= c < 26 ==> #[trigger] inv[c] < 26,
                forall|c: int|
                    0 <= c < 26 ==> #[trigger] inv[c] == (if last_preimage(w, c, i as int) >= 0 {
                        (last_preimage(w, c, i as int) + 26 - c) % 26
                    } else {
                        0
                    }),
            decreases 26 - i,
        {
            let t: usize = (i + inner.mapping[i] as usize) % 26;
            assert(t == w[i as int]);
            let off: u8 = ((i as u8) + 26 - (t as u8)) % 26;
            let ghost old_inv = inv;
            inv[t] = off;
            proof {
                assert forall|c: int| 0 <= c < 26 implies #[trigger] inv[c] == (if last_preimage(
                    w,
                    c,
                    i + 1,
                ) >= 0 {
                    (last_preimage(w, c, i + 1) + 26 - c) % 26
                } else {
                    0
                }) by {
                    lemma_last_preimage_step(w, c, i as int);
                    if c != t {
                        assert(inv[c] == old_inv[c]);
                    }
                }
            }
            i = i + 1;
        }
        let r = Eintrittswalze { inner_walze: inner, inverse_mapping: inv };
        assert forall|c: int| 0 <= c < 26 implies #[trigger] r.backward()[c] == inverse_wiring(w)[c] by {
            lemma_last_preimage_bounds(w, c, 26);
            let k = last_preimage(w, c, 26);
            if k >= 0 {
                lemma_offset_roundtrip(k, c);
            }
        }
        assert(r.backward() =~= inverse_wiring(w));
        r
    }

    /// The same wheel under another name.
    pub fn with_name(self, name: &'static str) -> (r: Self)
        ensures
            r.wiring() == self.wiring(),
            r.backward() == self.backward(),
            r.spec_name() == name,
    {
        proof {
            use_type_invariant(&self);
        }
        let r = Eintrittswalze { inner_walze: self.inner_walze.with_name(name), inverse_mapping: self.inverse_mapping };
        assert(r.inverse_mapping@ =~= self.inverse_mapping@);
        assert(r.backward() =~= self.backward());
        r
    }

    pub(crate) fn map_char(&self, c: u8) -> (r: u8)
        requires
            c < 26,
        ensures
            r == self.wiring()[c as int],
            r < 26,
    {
        self.inner_walze.map_char(c)
    }

    pub(crate) fn inverse_map_char(&self, c: u8) -> (r: u8)
        requires
            c < 26,
        ensures
            r == self.backward()[c as int],
            r < 26,
    {
        proof {
            use_type_invariant(self);
        }
        (c + self.inverse_mapping[c as usize]) % 26
    }

    /// The standard entry wheel, wired straight through.
    pub fn etw() -> (r: Self)
        ensures
            is_entry_wheel(r, "ABCDEFGHIJKLMNOPQRSTUVWXYZ"@, "ETW"@),
    {
        let m = "ABCDEFGHIJKLMNOPQRSTUVWXYZ";
        proof {
            reveal_strlit("ABCDEFGHIJKLMNOPQRSTUVWXYZ");
        }
        Eintrittswalze::new(m).with_name("ETW")
    }
}

impl Walze {
    /// The forward wiring.
    pub closed spec fn wiring(&self) -> Seq<int> {
        self.inner_walze.wiring()
    }

    /// The backward wiring.
    pub closed spec fn backward(&self) -> Seq<int> {
        self.inner_walze.backward()
    }

    /// The turnover notches, bit `p` for letter position `p`.
    pub closed spec fn notch_mask(&self) -> u32 {
        self.uebertragungskerben
    }

    /// The rotor turns the next one when it moves on from position `p`.
    pub open spec fn has_notch(&self, p: int) -> bool {
        0 <= p < 32 && self.notch_mask() & (1u32 << (p as u32)) != 0
    }

    pub closed spec fn spec_name(&self) -> &'static str {
        self.inner_walze.spec_name()
    }

    /// The name of the rotor.
    pub fn name(&self) -> (r: &'static str)
        ensures
            r == self.spec_name(),
    {
        self.inner_walze.name()
    }

    /// Creates a rotor without turnover notches whose letter `i` is wired
    /// to the `i`-th letter of `mapping`.
    pub fn new(mapping: &str) -> (r: Self)
        requires
            is_wiring_string(mapping@),
        ensures
            r.wiring() == wiring_of(mapping@),
            r.backward() == inverse_wiring(wiring_of(mapping@)),
            r.notch_mask() == 0,
            forall|p: int| !#[trigger] r.has_notch(p),
            r.spec_name()@ == Seq::<char>::empty(),
    {
        let r = Walze { inner_walze: Eintrittswalze::new(mapping), uebertragungskerben: 0 };
        assert forall|p: int| !#[trigger] r.has_notch(p) by {
            if 0 <= p < 32 {
                lemma_no_notch_bit(p as u32);
            }
        }
        r
    }

    /// The same rotor under another name.
    pub fn with_name(self, name: &'static str) -> (r: Self)
        ensures
            r.wiring() == self.wiring(),
            r.backward() == self.backward(),
            r.notch_mask() == self.notch_mask(),
            r.spec_name() == name,
    {
        Walze { inner_walze: self.inner_walze.with_name(name), uebertragungskerben: self.uebertragungskerben }
    }

    /// Adds a turnover notch at the position of letter `c`: the next rotor
    /// advances when this one moves on from `c`. A rotor may have several.
    pub fn mit_uebertragungskerbe(self, c: char) -> (r: Self)
        requires
            65 <= (c as u8),
            (c as u8) - 65 < 32,
        ensures
            r.wiring() == self.wiring(),
            r.backward() == self.backward(),
            r.spec_name() == self.spec_name(),
            r.notch_mask() == self.notch_mask() | (1u32 << (((c as u8) - 65) as u32)),
            forall|p: int|
                0 <= p < 32 ==> (#[trigger] r.has_notch(p) <==> (self.has_notch(p) || p == (c as u8)
                    - 65)),
    {
        let index: u32 = ((c as u8) - 65u8) as u32;
        let r = Walze {
            inner_walze: self.inner_walze,
            uebertragungskerben: self.uebertragungskerben | (1u32 << index),
        };
        assert forall|p: int|
            0 <= p < 32 implies (#[trigger] r.has_notch(p) <==> (self.has_notch(p) || p == (c as u8)
                - 65)) by {
            lemma_notch_bit(self.uebertragungskerben, index, p as u32);
        }
        r
    }

    pub(crate) fn is_uebertragungskerbe(&self, index: usize) -> (r: bool)
        requires
            index < 32,
        ensures
            r == self.has_notch(index as int),
    {
        (self.uebertragungskerben & (1u32 << (index as u32))) != 0
    }

    pub(crate) fn map_char(&self, c: u8, stellung: u8) -> (r: u8)
        requires
            c < 26,
            stellung < 26,
        ensures
            r == rotor_forward(self.wiring(), c as int, stellung as int),
            r < 26,
    {
        proof {
            use_type_invariant(&self.inner_walze.inner_walze);
        }
        let j: usize = (c + stellung) as usize % 26;
        let m = self.inner_walze.inner_walze.mapping[j];
        proof {
            lemma_offset_shift(c as int, stellung as int, m as int, self.wiring()[j as int]);
        }
        (c + m) % 26
    }

    pub(crate) fn inverse_map_char(&self, c: u8, stellung: u8) -> (r: u8)
        requires
            c < 26,
            stellung < 26,
        ensures
            r == rotor_backward(self.backward(), c as int, stellung as int),
            r < 26,
    {
        proof {
            use_type_invariant(&self.inner_walze);
        }
        let j: usize = (c + stellung) as usize % 26;
        let m = self.inner_walze.inverse_mapping[j];
        proof {
            lemma_offset_shift(c as int, stellung as int, m as int, self.backward()[j as int]);
        }
        (c + m) % 26
    }

    /// Rotor I, turnover notch at Q.
    pub fn i() -> (r: Self)
        ensures
            is_rotor(r, "EKMFLGDQVZNTOWYHXUSPAIBRCJ"@, 16, 16, "I"@),
    {
        let m = "EKMFLGDQVZNTOWYHXUSPAIBRCJ";
        proof {
            reveal_strlit("EKMFLGDQVZNTOWYHXUSPAIBRCJ");
        }
        let w0 = Walze::new(m);
        let w1 = w0.mit_uebertragungskerbe('Q');
        let r = w1.with_name("I");
        assert forall|p: int| #[trigger] r.has_notch(p) <==> (p == 16 || p == 16) by {
            assert(r.has_notch(p) == w1.has_notch(p));
            assert(!w0.has_notch(p));
            if 0 <= p < 32 {
                assert(w1.has_notch(p) == (w0.has_notch(p) || p == 16));
            }
        }
        r
    }

    /// Rotor II, turnover notch at E.
    pub fn ii() -> (r: Self)
        ensures
            is_rotor(r, "AJDKSIRUXBLHWTMCQGZNPYFVOE"@, 4, 4, "II"@),
    {
        let m = "AJDKSIRUXBLHWTMCQGZNPYFVOE";
        proof {
            reveal_strlit("AJDKSIRUXBLHWTMCQGZNPYFVOE");
        }
        let w0 = Walze::new(m);
        let w1 = w0.mit_uebertragungskerbe('E');
        let r = w1.with_name("II");
        assert forall|p: int| #[trigger] r.has_notch(p) <==> (p == 4 || p == 4) by {
            assert(r.has_notch(p) == w1.has_notch(p));
            assert(!w0.has_notch(p));
            if 0 <= p < 32 {
                assert(w1.has_notch(p) == (w0.has_notch(p) || p == 4));
            }
        }
        r
    }

    /// Rotor III, turnover notch at V.
    pub fn iii() -> (r: Self)
        ensures
            is_rotor(r, "BDFHJLCPRTXVZNYEIWGAKMUSQO"@, 21, 21, "III"@),
    {
        let m = "BDFHJLCPRTXVZNYEIWGAKMUSQO";
        proof {
            reveal_strlit("BDFHJLCPRTXVZNYEIWGAKMUSQO");
        }
        let w0 = Walze::new(m);
        let w1 = w0.mit_uebertragungskerbe('V');
        let r = w1.with_name("III");
        assert forall|p: int| #[trigger] r.has_notch(p) <==> (p == 21 || p == 21) by {
            assert(r.has_notch(p) == w1.has_notch(p));
            assert(!w0.has_notch(p));
            if 0 <= p < 32 {
                assert(w1.has_notch(p) == (w0.has_notch(p) || p == 21));
            }
        }
        r
    }

    /// Rotor IV, turnover notch at J.
    pub fn iv() -> (r: Self)
        ensures
            is_rotor(r, "ESOVPZJAYQUIRHXLNFTGKDCMWB"@, 9, 9, "IV"@),
    {
        let m = "ESOVPZJAYQUIRHXLNFTGKDCMWB";
        proof {
            reveal_strlit("ESOVPZJAYQUIRHXLNFTGKDCMWB");
        }
        let w0 = Walze::new(m);
        let w1 = w0.mit_uebertragungskerbe('J');
        let r = w1.with_name("IV");
        assert forall|p: int| #[trigger] r.has_notch(p) <==> (p == 9 || p == 9) by {
            assert(r.has_notch(p) == w1.has_notch(p));
            assert(!w0.has_notch(p));
            if 0 <= p < 32 {
                assert(w1.has_notch(p) == (w0.has_notch(p) || p == 9));
            }
        }
        r
    }

    /// Rotor V, turnover notch at Z.
    pub fn v() -> (r: Self)
        ensures
            is_rotor(r, "VZBRGITYUPSDNHLXAWMJQOFECK"@, 25, 25, "V"@),
    {
        let m = "VZBRGITYUPSDNHLXAWMJQOFECK";
        proof {
            reveal_strlit("VZBRGITYUPSDNHLXAWMJQOFECK");
        }
        let w0 = Walze::new(m);
        let w1 = w0.mit_uebertragungskerbe('Z');
        let r = w1.with_name("V");
        assert forall|p: int| #[trigger] r.has_notch(p) <==> (p == 25 || p == 25) by {
            assert(r.has_notch(p) == w1.has_notch(p));
            assert(!w0.has_notch(p));
            if 0 <= p < 32 {
                assert(w1.has_notch(p) == (w0.has_notch(p) || p == 25));
            }
        }
        r
    }

    /// Rotor VI, turnover notch at Z, M.
    pub fn vi() -> (r: Self)
        ensures
            is_rotor(r, "JPGVOUMFYQBENHZRDKASXLICTW"@, 25, 12, "VI"@),
    {
        let m = "JPGVOUMFYQBENHZRDKASXLICTW";
        proof {
            reveal_strlit("JPGVOUMFYQBENHZRDKASXLICTW");
        }
        let w0 = Walze::new(m);
        let w1 = w0.mit_uebertragungskerbe('Z');
        let w2 = w1.mit_uebertragungskerbe('M');
        let r = w2.with_name("VI");
        assert forall|p: int| #[trigger] r.has_notch(p) <==> (p == 25 || p == 12) by {
            assert(r.has_notch(p) == w2.has_notch(p));
            assert(!w0.has_notch(p));
            if 0 <= p < 32 {
                assert(w1.has_notch(p) == (w0.has_notch(p) || p == 25));
                assert(w2.has_notch(p) == (w1.has_notch(p) || p == 12));
            }
        }
        r
    }

    /// Rotor VII, turnover notch at Z, M.
    pub fn vii() -> (r: Self)
        ensures
            is_rotor(r, "NZJHGRCXMYSWBOUFAIVLPEKQDT"@, 25, 12, "VII"@),
    {
        let m = "NZJHGRCXMYSWBOUFAIVLPEKQDT";
        proof {
            reveal_strlit("NZJHGRCXMYSWBOUFAIVLPEKQDT");
        }
        let w0 = Walze::new(m);
        let w1 = w0.mit_uebertragungskerbe('Z');
        let w2 = w1.mit_uebertragungskerbe('M');
        let r = w2.with_name("VII");
        assert forall|p: int| #[trigger] r.has_notch(p) <==> (p == 25 || p == 12) by {
            assert(r.has_notch(p) == w2.has_notch(p));
            assert(!w0.has_notch(p));
            if 0 <= p < 32 {
                assert(w1.has_notch(p) == (w0.has_notch(p) || p == 25));
                assert(w2.has_notch(p) == (w1.has_notch(p) || p == 12));
            }
        }
        r
    }

    /// Rotor VIII, turnover notch at Z, M.
    pub fn viii() -> (r: Self)
        ensures
            is_rotor(r, "FKQHTLXOCBJSPDZRAMEWNIUYGV"@, 25, 12, "VIII"@),
    {
        let m = "FKQHTLXOCBJSPDZRAMEWNIUYGV";
        proof {
            reveal_strlit("FKQHTLXOCBJSPDZRAMEWNIUYGV");
        }
        let w0 = Walze::new(m);
        let w1 = w0.mit_uebertragungskerbe('Z');
        let w2 = w1.mit_uebertragungskerbe('M');
        let r = w2.with_name("VIII");
        assert forall|p: int| #[trigger] r.has_notch(p) <==> (p == 25 || p == 12) by {
            assert(r.has_notch(p) == w2.has_notch(p));
            assert(!w0.has_notch(p));
            if 0 <= p < 32 {
                assert(w1.has_notch(p) == (w0.has_notch(p) || p == 25));
                assert(w2.has_notch(p) == (w1.has_notch(p) || p == 12));
            }
        }
        r
    }

    /// Rotors I to V.
    pub fn sammlung_i_v() -> (r: [Walze; 5])
        ensures
            is_rotor(r[0], "EKMFLGDQVZNTOWYHXUSPAIBRCJ"@, 16, 16, "I"@),
            is_rotor(r[1], "AJDKSIRUXBLHWTMCQGZNPYFVOE"@, 4, 4, "II"@),
            is_rotor(r[2], "BDFHJLCPRTXVZNYEIWGAKMUSQO"@, 21, 21, "III"@),
            is_rotor(r[3], "ESOVPZJAYQUIRHXLNFTGKDCMWB"@, 9, 9, "IV"@),
            is_rotor(r[4], "VZBRGITYUPSDNHLXAWMJQOFECK"@, 25, 25, "V"@),
    {
        [Walze::i(), Walze::ii(), Walze::iii(), Walze::iv(), Walze::v()]
    }

    /// Rotors I to VIII.
    pub fn sammlung_i_viii() -> (r: [Walze; 8])
        ensures
            is_rotor(r[0], "EKMFLGDQVZNTOWYHXUSPAIBRCJ"@, 16, 16, "I"@),
            is_rotor(r[1], "AJDKSIRUXBLHWTMCQGZNPYFVOE"@, 4, 4, "II"@),
            is_rotor(r[2], "BDFHJLCPRTXVZNYEIWGAKMUSQO"@, 21, 21, "III"@),
            is_rotor(r[3], "ESOVPZJAYQUIRHXLNFTGKDCMWB"@, 9, 9, "IV"@),
            is_rotor(r[4], "VZBRGITYUPSDNHLXAWMJQOFECK"@, 25, 25, "V"@),
            is_rotor(r[5], "JPGVOUMFYQBENHZRDKASXLICTW"@, 25, 12, "VI"@),
            is_rotor(r[6], "NZJHGRCXMYSWBOUFAIVLPEKQDT"@, 25, 12, "VII"@),
            is_rotor(r[7], "FKQHTLXOCBJSPDZRAMEWNIUYGV"@, 25, 12, "VIII"@),
    {
        [Walze::i(), Walze::ii(), Walze::iii(), Walze::iv(), Walze::v(), Walze::vi(), Walze::vii(), Walze::viii()]
    }
}

/// Checks `v[w[i]] == i` for the first `n` letters, one letter at a time.
spec fn inverse_check(w: Seq<int>, v: Seq<int>, n: int) -> bool
    decreases n,
{
    if n <= 0 {
        true
    } else {
        0 <= w[n - 1] < 26 && v[w[n - 1]] == n - 1 && inverse_check(w, v, n - 1)
    }
}

/// Checks that the first `n` letters are swapped in pairs by `w`.
spec fn reflector_check(w: Seq<int>, n: int) -> bool
    decreases n,
{
    if n <= 0 {
        true
    } else {
        0 <= w[n - 1] < 26 && w[w[n - 1]] == n - 1 && w[n - 1] != n - 1 && reflector_check(w, n - 1)
    }
}

proof fn lemma_inverse_check(w: Seq<int>, v: Seq<int>, n: int)
    requires
        inverse_check(w, v, n),
    ensures
        forall|i: int| 0 <= i < n ==> 0 <= #[trigger] w[i] < 26 && v[w[i]] == i,
    decreases n,
{
    if n > 0 {
        lemma_inverse_check(w, v, n - 1);
    }
}

proof fn lemma_reflector_check(w: Seq<int>, n: int)
    requires
        reflector_check(w, n),
    ensures
        forall|i: int| 0 <= i < n ==> 0 <= #[trigger] w[i] < 26 && w[w[i]] == i && w[i] != i,
    decreases n,
{
    if n > 0 {
        lemma_reflector_check(w, n - 1);
    }
}

/// Two wirings that undo each other are permutations.
proof fn lemma_permutation_by_inverse(w: Seq<int>, v: Seq<int>)
    requires
        w.len() == 26,
        v.len() == 26,
        inverse_check(w, v, 26),
        inverse_check(v, w, 26),
    ensures
        is_permutation(w),
{
    lemma_inverse_check(w, v, 26);
    lemma_inverse_check(v, w, 26);
    assert forall|c: int| 0 <= c < 26 implies #[trigger] is_hit(w, c) by {
        assert(w[v[c]] == c);
    }
}

/// The wheels that come with the library are wired as wheels must be:
/// the entry wheel and the rotors I to VIII are permutations of the
/// alphabet, and the reflectors A, B and C swap the letters in pairs and
/// send no letter to itself.
pub proof fn law_standard_wheels()
    ensures
        is_permutation(wiring_of("ABCDEFGHIJKLMNOPQRSTUVWXYZ"@)),
        is_permutation(wiring_of("EKMFLGDQVZNTOWYHXUSPAIBRCJ"@)),
        is_permutation(wiring_of("AJDKSIRUXBLHWTMCQGZNPYFVOE"@)),
        is_permutation(wiring_of("BDFHJLCPRTXVZNYEIWGAKMUSQO"@)),
        is_permutation(wiring_of("ESOVPZJAYQUIRHXLNFTGKDCMWB"@)),
        is_permutation(wiring_of("VZBRGITYUPSDNHLXAWMJQOFECK"@)),
        is_permutation(wiring_of("JPGVOUMFYQBENHZRDKASXLICTW"@)),
        is_permutation(wiring_of("NZJHGRCXMYSWBOUFAIVLPEKQDT"@)),
        is_permutation(wiring_of("FKQHTLXOCBJSPDZRAMEWNIUYGV"@)),
        is_involution(wiring_of("EJMZALYXVBWFCRQUONTSPIKHGD"@)),
        forall|i: int| 0 <= i < 26 ==> #[trigger] wiring_of("EJMZALYXVBWFCRQUONTSPIKHGD"@)[i] != i,
        is_involution(wiring_of("YRUHQSLDPXNGOKMIEBFZCWVJAT"@)),
        forall|i: int| 0 <= i < 26 ==> #[trigger] wiring_of("YRUHQSLDPXNGOKMIEBFZCWVJAT"@)[i] != i,
        is_involution(wiring_of("FVPJIAOYEDRZXWGCTKUQSBNMHL"@)),
        forall|i: int| 0 <= i < 26 ==> #[trigger] wiring_of("FVPJIAOYEDRZXWGCTKUQSBNMHL"@)[i] != i,
{
    reveal_with_fuel(inverse_check, 27);
    reveal_with_fuel(reflector_check, 27);
    reveal_strlit("ABCDEFGHIJKLMNOPQRSTUVWXYZ");
    assert(inverse_check(wiring_of("ABCDEFGHIJKLMNOPQRSTUVWXYZ"@), wiring_of("ABCDEFGHIJKLMNOPQRSTUVWXYZ"@), 26));
    lemma_permutation_by_inverse(wiring_of("ABCDEFGHIJKLMNOPQRSTUVWXYZ"@), wiring_of("ABCDEFGHIJKLMNOPQRSTUVWXYZ"@));
    reveal_strlit("EKMFLGDQVZNTOWYHXUSPAIBRCJ");
    reveal_strlit("UWYGADFPVZBECKMTHXSLRINQOJ");
    assert(inverse_check(wiring_of("EKMFLGDQVZNTOWYHXUSPAIBRCJ"@), wiring_of("UWYGADFPVZBECKMTHXSLRINQOJ"@), 26));
    assert(inverse_check(wiring_of("UWYGADFPVZBECKMTHXSLRINQOJ"@), wiring_of("EKMFLGDQVZNTOWYHXUSPAIBRCJ"@), 26));
    lemma_permutation_by_inverse(wiring_of("EKMFLGDQVZNTOWYHXUSPAIBRCJ"@), wiring_of("UWYGADFPVZBECKMTHXSLRINQOJ"@));
    reveal_strlit("AJDKSIRUXBLHWTMCQGZNPYFVOE");
    reveal_strlit("AJPCZWRLFBDKOTYUQGENHXMIVS");
    assert(inverse_check(wiring_of("AJDKSIRUXBLHWTMCQGZNPYFVOE"@), wiring_of("AJPCZWRLFBDKOTYUQGENHXMIVS"@), 26));
    assert(inverse_check(wiring_of("AJPCZWRLFBDKOTYUQGENHXMIVS"@), wiring_of("AJDKSIRUXBLHWTMCQGZNPYFVOE"@), 26));
    lemma_permutation_by_inverse(wiring_of("AJDKSIRUXBLHWTMCQGZNPYFVOE"@), wiring_of("AJPCZWRLFBDKOTYUQGENHXMIVS"@));
    reveal_strlit("BDFHJLCPRTXVZNYEIWGAKMUSQO");
    reveal_strlit("TAGBPCSDQEUFVNZHYIXJWLRKOM");
    assert(inverse_check(wiring_of("BDFHJLCPRTXVZNYEIWGAKMUSQO"@), wiring_of("TAGBPCSDQEUFVNZHYIXJWLRKOM"@), 26));
    assert(inverse_check(wiring_of("TAGBPCSDQEUFVNZHYIXJWLRKOM"@), wiring_of("BDFHJLCPRTXVZNYEIWGAKMUSQO"@), 26));
    lemma_permutation_by_inverse(wiring_of("BDFHJLCPRTXVZNYEIWGAKMUSQO"@), wiring_of("TAGBPCSDQEUFVNZHYIXJWLRKOM"@));
    reveal_strlit("ESOVPZJAYQUIRHXLNFTGKDCMWB");
    reveal_strlit("HZWVARTNLGUPXQCEJMBSKDYOIF");
    assert(inverse_check(wiring_of("ESOVPZJAYQUIRHXLNFTGKDCMWB"@), wiring_of("HZWVARTNLGUPXQCEJMBSKDYOIF"@), 26));
    assert(inverse_check(wiring_of("HZWVARTNLGUPXQCEJMBSKDYOIF"@), wiring_of("ESOVPZJAYQUIRHXLNFTGKDCMWB"@), 26));
    lemma_permutation_by_inverse(wiring_of("ESOVPZJAYQUIRHXLNFTGKDCMWB"@), wiring_of("HZWVARTNLGUPXQCEJMBSKDYOIF"@));
    reveal_strlit("VZBRGITYUPSDNHLXAWMJQOFECK");
    reveal_strlit("QCYLXWENFTZOSMVJUDKGIARPHB");
    assert(inverse_check(wiring_of("VZBRGITYUPSDNHLXAWMJQOFECK"@), wiring_of("QCYLXWENFTZOSMVJUDKGIARPHB"@), 26));
    assert(inverse_check(wiring_of("QCYLXWENFTZOSMVJUDKGIARPHB"@), wiring_of("VZBRGITYUPSDNHLXAWMJQOFECK"@), 26));
    lemma_permutation_by_inverse(wiring_of("VZBRGITYUPSDNHLXAWMJQOFECK"@), wiring_of("QCYLXWENFTZOSMVJUDKGIARPHB"@));
    reveal_strlit("JPGVOUMFYQBENHZRDKASXLICTW");
    reveal_strlit("SKXQLHCNWARVGMEBJPTYFDZUIO");
    assert(inverse_check(wiring_of("JPGVOUMFYQBENHZRDKASXLICTW"@), wiring_of("SKXQLHCNWARVGMEBJPTYFDZUIO"@), 26));
    assert(inverse_check(wiring_of("SKXQLHCNWARVGMEBJPTYFDZUIO"@), wiring_of("JPGVOUMFYQBENHZRDKASXLICTW"@), 26));
    lemma_permutation_by_inverse(wiring_of("JPGVOUMFYQBENHZRDKASXLICTW"@), wiring_of("SKXQLHCNWARVGMEBJPTYFDZUIO"@));
    reveal_strlit("NZJHGRCXMYSWBOUFAIVLPEKQDT");
    reveal_strlit("QMGYVPEDRCWTIANUXFKZOSLHJB");
    assert(inverse_check(wiring_of("NZJHGRCXMYSWBOUFAIVLPEKQDT"@), wiring_of("QMGYVPEDRCWTIANUXFKZOSLHJB"@), 26));
    assert(inverse_check(wiring_of("QMGYVPEDRCWTIANUXFKZOSLHJB"@), wiring_of("NZJHGRCXMYSWBOUFAIVLPEKQDT"@), 26));
    lemma_permutation_by_inverse(wiring_of("NZJHGRCXMYSWBOUFAIVLPEKQDT"@), wiring_of("QMGYVPEDRCWTIANUXFKZOSLHJB"@));
    reveal_strlit("FKQHTLXOCBJSPDZRAMEWNIUYGV");
    reveal_strlit("QJINSAYDVKBFRUHMCPLEWZTGXO");
    assert(inverse_check(wiring_of("FKQHTLXOCBJSPDZRAMEWNIUYGV"@), wiring_of("QJINSAYDVKBFRUHMCPLEWZTGXO"@), 26));
    assert(inverse_check(wiring_of("QJINSAYDVKBFRUHMCPLEWZTGXO"@), wiring_of("FKQHTLXOCBJSPDZRAMEWNIUYGV"@), 26));
    lemma_permutation_by_inverse(wiring_of("FKQHTLXOCBJSPDZRAMEWNIUYGV"@), wiring_of("QJINSAYDVKBFRUHMCPLEWZTGXO"@));
    reveal_strlit("EJMZALYXVBWFCRQUONTSPIKHGD");
    assert(reflector_check(wiring_of("EJMZALYXVBWFCRQUONTSPIKHGD"@), 26));
    lemma_reflector_check(wiring_of("EJMZALYXVBWFCRQUONTSPIKHGD"@), 26);
    reveal_strlit("YRUHQSLDPXNGOKMIEBFZCWVJAT");
    assert(reflector_check(wiring_of("YRUHQSLDPXNGOKMIEBFZCWVJAT"@), 26));
    lemma_reflector_check(wiring_of("YRUHQSLDPXNGOKMIEBFZCWVJAT"@), 26);
    reveal_strlit("FVPJIAOYEDRZXWGCTKUQSBNMHL");
    assert(reflector_check(wiring_of("FVPJIAOYEDRZXWGCTKUQSBNMHL"@), 26));
    lemma_reflector_check(wiring_of("FVPJIAOYEDRZXWGCTKUQSBNMHL"@), 26);
}

impl core::ops::Deref for Walze {
    type Target = Eintrittswalze;

    /// A rotor is an entry-wheel wiring with turnover notches.
    fn deref(&self) -> (r: &Eintrittswalze)
        ensures
            r.wiring() == self.wiring(),
            r.backward() == self.backward(),
            r.spec_name() == self.spec_name(),
    {
        &self.inner_walze
    }
}

impl core::ops::Deref for Eintrittswalze {
    type Target = Umkehrwalze;

    /// An entry wheel is a forward wiring with its backward wiring.
    fn deref(&self) -> (r: &Umkehrwalze)
        ensures
            r.wiring() == self.wiring(),
            r.spec_name() == self.spec_name(),
    {
        &self.inner_walze
    }
}

} // verus!
