# enigma

A simulation of the Enigma cipher machine, verified with Verus.

- `src/walze.rs` — the wheels: reflector (`Umkehrwalze`), entry wheel
  (`Eintrittswalze`) and rotors (`Walze`, with turnover notches), their
  wirings, and the standard wheels I–VIII, UKW A/B/C and ETW.
- `src/enigma.rs` — the machine (`Enigma<N>`), its mathematical model
  (`EnigmaView`), rotor stepping (with the double step of the middle
  rotors), enciphering, settings and errors, and the
  laws of the machine (a reciprocal machine deciphers what it enciphers, no
  letter is enciphered as itself, texts encode piecewise, settings read back,
  encoding depends only on wirings and rotor offsets).
- `src/steckbrett.rs` — plugboard descriptions (words of a text), the
  connections they make, and laws about reading a plugboard back.
- `src/solver.rs` — the candidates of a key search (plug pairs, rotor
  orders), taken from `itertools`, and the letter counts its scores use.
- `src/text.rs` — string building and decimal numbers.
- `app/` — the program: decoding a text file with a known key, and the key
  search, whose scoring is floating-point statistics run in parallel with
  `rayon`.
- `tests/` — tests of the library on concrete machines and messages.
