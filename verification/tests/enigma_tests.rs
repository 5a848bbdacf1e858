use enigma::{plug_candidates, rotor_orders, Eintrittswalze, Enigma, EnigmaError, Umkehrwalze, Walze};

fn doc_machine() -> Enigma<3> {
    let mut enigma = Enigma::new([Walze::i(), Walze::iv(), Walze::iii()]);
    assert!(enigma.set_plugboard("AD CN ET FL GI JV KZ PU QY WX").is_ok());
    assert!(enigma.set_ringstellung([16, 26, 8]).is_ok());
    assert!(enigma.set_walzen_stellung([18, 20, 26]).is_ok());
    enigma
}

const DOC_CIPHER: &str = "EJZLBSYEQPDWDUEEJJOUPSOFLBMUIMGLCSKBKJLYZTEIYTHZLUEUHRRKUZOWBVXFOUIZHYGVDXWQKKSBCPTVMNGUCLTQISSBTNSFGNFZCQSJARCNOSEGWMYCHNODWFGGZCQNHZYFATHTQWKGUNWHOXBWKFNPYAMVFT";
const DOC_PLAIN: &str = "XAACHENXAACHENXISTGERETTETXDURQGEBUENDELTENEINSATZDERHILFSKRAEFTEKONNTEDIEBEDROHUNGABGEWENDETUNDDIERETTUNGDERSTADTGEGENXEINSXAQTXNULLXNULLXUHRSIQERGESTELLTWERDENX";

#[test]
fn decodes_historic_message() {
    let mut enigma = doc_machine();
    let decoded = enigma.encode(DOC_CIPHER).unwrap();
    assert_eq!(decoded, DOC_PLAIN);
    assert_eq!(enigma.get_walzen_stellung(), [18, 26, 6]);
}

#[test]
fn encoding_twice_from_the_same_setting_gives_the_text_back() {
    let mut enigma = doc_machine();
    let encoded = enigma.encode_and_reset(DOC_PLAIN).unwrap();
    assert_eq!(encoded, DOC_CIPHER);
    assert_eq!(enigma.get_walzen_stellung(), [18, 20, 26]);
    let decoded = enigma.encode_and_reset(&encoded).unwrap();
    assert_eq!(decoded, DOC_PLAIN);
}

#[test]
fn encode_moves_the_rotors_and_encode_and_reset_does_not() {
    let mut enigma = doc_machine();
    let first = enigma.encode("HELLOWORLD").unwrap();
    assert_eq!(first, "KQWCIOPIII");
    let second = enigma.encode("HELLOWORLD").unwrap();
    assert_ne!(first, second);
    let mut other = doc_machine();
    assert_eq!(other.encode_and_reset("HELLOWORLD").unwrap(), "KQWCIOPIII");
    assert_eq!(other.encode_and_reset("HELLOWORLD").unwrap(), "KQWCIOPIII");
}

#[test]
fn standard_rotors_at_aaa() {
    let mut enigma = Enigma::new([Walze::i(), Walze::ii(), Walze::iii()]);
    assert_eq!(enigma.encode("AAAAA").unwrap(), "BDZGO");
    assert_eq!(enigma.get_walzen_stellung(), [1, 1, 6]);
}

#[test]
fn right_rotor_turns_middle_rotor_at_its_notch() {
    let mut enigma = Enigma::new([Walze::i(), Walze::ii(), Walze::iii()]);
    assert!(enigma.set_walzen_stellung([1, 1, 17]).is_ok());
    assert_eq!(enigma.encode("AAAAA").unwrap(), "DLPBM");
    assert_eq!(enigma.get_walzen_stellung(), [1, 1, 22]);
    let mut enigma = Enigma::new([Walze::i(), Walze::ii(), Walze::iii()]);
    assert!(enigma.set_walzen_stellung([1, 5, 22]).is_ok());
    assert_eq!(enigma.encode("AAA").unwrap(), "GIB");
    assert_eq!(enigma.get_walzen_stellung(), [2, 6, 25]);
}

#[test]
fn machine_without_rotors_is_the_reflector() {
    let mut enigma: Enigma<0> = Enigma::new([]);
    assert_eq!(enigma.encode("ABCXYZ").unwrap(), "YRUJAT");
}

#[test]
fn other_reflector_and_custom_wheels() {
    let mut enigma = Enigma::new([Walze::i(), Walze::ii(), Walze::iii()]).with_umkehrwalze(Umkehrwalze::ukw_c());
    assert_eq!(enigma.encode("HELLO").unwrap(), "XKVWS");
    let custom = Walze::new("EKMFLGDQVZNTOWYHXUSPAIBRCJ").mit_uebertragungskerbe('Q').with_name("I");
    let mut enigma = Enigma::new([custom, Walze::ii(), Walze::iii()])
        .with_umkehrwalze(Umkehrwalze::new("FVPJIAOYEDRZXWGCTKUQSBNMHL"))
        .with_eintrittswalze(Eintrittswalze::new("ABCDEFGHIJKLMNOPQRSTUVWXYZ"));
    assert_eq!(enigma.encode("HELLO").unwrap(), "XKVWS");
}

#[test]
fn single_rotor_with_plug() {
    let mut enigma = Enigma::new([Walze::i()]);
    assert!(enigma.set_plugboard("AB").is_ok());
    assert_eq!(enigma.encode("AAAA").unwrap(), "OXPK");
}

#[test]
fn encode_refuses_other_characters() {
    let mut enigma = doc_machine();
    match enigma.encode("ABcD1") {
        Err(EnigmaError::InvalidCharactersInInput(c)) => assert_eq!(c, 'c'),
        _ => panic!("expected an invalid character"),
    }
    assert_eq!(enigma.get_walzen_stellung(), [18, 20, 26]);
    match enigma.encode_and_reset("HELLO WORLD") {
        Err(EnigmaError::InvalidCharactersInInput(c)) => assert_eq!(c, ' '),
        _ => panic!("expected an invalid character"),
    }
    match enigma.encode("ÄB") {
        Err(EnigmaError::InvalidCharactersInInput(c)) => assert_eq!(c, 'Ä'),
        _ => panic!("expected an invalid character"),
    }
    assert_eq!(enigma.encode("").unwrap(), "");
}

#[test]
fn settings_are_checked_and_read_back() {
    let mut enigma = Enigma::new([Walze::i(), Walze::ii(), Walze::iii()]);
    assert_eq!(enigma.get_walzen_stellung(), [1, 1, 1]);
    assert_eq!(enigma.get_ringstellung(), [1, 1, 1]);
    assert!(enigma.set_walzen_stellung([26, 1, 13]).is_ok());
    assert_eq!(enigma.get_walzen_stellung(), [26, 1, 13]);
    match enigma.set_walzen_stellung([3, 27, 0]) {
        Err(EnigmaError::InvalidWalzenStellung(x)) => assert_eq!(x, 27),
        _ => panic!("expected an invalid position"),
    }
    match enigma.set_walzen_stellung([0, 2, 2]) {
        Err(EnigmaError::InvalidWalzenStellung(x)) => assert_eq!(x, 0),
        _ => panic!("expected an invalid position"),
    }
    assert_eq!(enigma.get_walzen_stellung(), [26, 1, 13]);
    assert!(enigma.set_ringstellung([2, 3, 26]).is_ok());
    assert_eq!(enigma.get_ringstellung(), [2, 3, 26]);
    match enigma.set_ringstellung([5, 5, 200]) {
        Err(EnigmaError::InvalidRingstellung(x)) => assert_eq!(x, 200),
        _ => panic!("expected an invalid ring setting"),
    }
    assert_eq!(enigma.get_ringstellung(), [2, 3, 26]);
}

#[test]
fn plugboard_description_is_parsed() {
    let mut enigma = Enigma::new([Walze::i(), Walze::ii(), Walze::iii()]);
    assert!(enigma.set_plugboard("  AD\tCN\nET  ").is_ok());
    assert_eq!(enigma.get_plugboard_mapping(), vec![['A', 'D'], ['C', 'N'], ['E', 'T']]);
    assert_eq!(enigma.number_of_plugs_set(), 3);
    assert!(enigma.is_plug_set('A'));
    assert!(enigma.is_plug_set('T'));
    assert!(!enigma.is_plug_set('B'));
    assert!(enigma.set_plugboard("ZY").is_ok());
    assert_eq!(enigma.get_plugboard_mapping(), vec![['Y', 'Z']]);
    match enigma.set_plugboard("AB CDE") {
        Err(EnigmaError::InvalidPlugboardConnection(w)) => assert_eq!(w, "CDE"),
        _ => panic!("expected an invalid connection"),
    }
    assert_eq!(enigma.get_plugboard_mapping(), vec![['A', 'B']]);
    assert!(enigma.set_plugboard("").is_ok());
    assert_eq!(enigma.number_of_plugs_set(), 0);
}

#[test]
fn plugboard_description_errors() {
    let mut enigma = Enigma::new([Walze::i(), Walze::ii(), Walze::iii()]);
    match enigma.set_plugboard("AB CD E FG") {
        Err(EnigmaError::InvalidPlugboardConnection(w)) => assert_eq!(w, "E"),
        _ => panic!("expected an invalid connection"),
    }
    assert_eq!(enigma.get_plugboard_mapping(), vec![['A', 'B'], ['C', 'D']]);
    match enigma.set_plugboard("AB BC") {
        Err(EnigmaError::OverlappingPlugboardConnection(w)) => assert_eq!(w, "BC"),
        _ => panic!("expected an overlapping connection"),
    }
    assert_eq!(enigma.get_plugboard_mapping(), vec![['A', 'B']]);
    match enigma.set_plugboard("XX") {
        Err(EnigmaError::InvalidPlugboardConnection(w)) => assert_eq!(w, "XX"),
        _ => panic!("expected an invalid connection"),
    }
    match enigma.set_plugboard("ab") {
        Err(EnigmaError::InvalidPlugboardConnection(w)) => assert_eq!(w, "ab"),
        _ => panic!("expected an invalid connection"),
    }
    match enigma.set_plugboard("AÖ") {
        Err(EnigmaError::InvalidPlugboardConnection(w)) => assert_eq!(w, "AÖ"),
        _ => panic!("expected an invalid connection"),
    }
    assert_eq!(enigma.number_of_plugs_set(), 0);
}

#[test]
fn unchecked_plugs_and_mapping_round_trip() {
    let mut enigma = Enigma::new([Walze::i(), Walze::ii(), Walze::iii()]);
    enigma.set_plugboard_unchecked(&[['Q', 'A'], ['M', 'Z']]);
    let mapping = enigma.get_plugboard_mapping();
    assert_eq!(mapping, vec![['A', 'Q'], ['M', 'Z']]);
    let mut other = Enigma::new([Walze::i(), Walze::ii(), Walze::iii()]);
    other.set_plugboard_unchecked(&mapping);
    assert_eq!(other.get_plugboard_mapping(), mapping);
    other.set_plug_unchecked('B', 'C');
    assert_eq!(other.number_of_plugs_set(), 3);
    other.reset_plug_unchecked('B', 'C');
    assert_eq!(other.get_plugboard_mapping(), mapping);
    other.reset_plugboard();
    assert_eq!(other.number_of_plugs_set(), 0);
    assert!(other.get_plugboard_mapping().is_empty());
}

#[test]
fn error_messages() {
    assert_eq!(
        EnigmaError::InvalidPlugboardConnection("A".to_string()).message(),
        "Invalid plugboard connection: A. Each connection must be a pair of uppercase letters (A-Z) and cannot contain duplicates."
    );
    assert_eq!(
        EnigmaError::OverlappingPlugboardConnection("BC".to_string()).message(),
        "Overlapping plugboard connection: BC. Each letter can only be connected to one other letter."
    );
    assert_eq!(
        EnigmaError::InvalidWalzenStellung(27).message(),
        "Invalid Walzenstellung: 27. Each rotor position must be between 1 and 26."
    );
    assert_eq!(
        EnigmaError::InvalidWalzenStellung(0).message(),
        "Invalid Walzenstellung: 0. Each rotor position must be between 1 and 26."
    );
    assert_eq!(
        EnigmaError::InvalidRingstellung(255).message(),
        "Invalid Ringstellung: 255. Each ring setting must be between 1 and 26."
    );
    assert_eq!(
        EnigmaError::InvalidCharactersInInput('x').message(),
        "Invalid character in input: x. Only uppercase letters (A-Z) are allowed."
    );
}

#[test]
fn wheel_names() {
    assert_eq!(Walze::i().name(), "I");
    assert_eq!(Walze::viii().name(), "VIII");
    assert_eq!(Umkehrwalze::ukw_a().name(), "UKW A");
    assert_eq!(Umkehrwalze::ukw_b().name(), "UKW B");
    assert_eq!(Eintrittswalze::etw().name(), "ETW");
    assert_eq!(Walze::new("ABCDEFGHIJKLMNOPQRSTUVWXYZ").name(), "");
    assert_eq!(Umkehrwalze::new("ABCDEFGHIJKLMNOPQRSTUVWXYZ").with_name("X").name(), "X");
    let names: Vec<&str> = Walze::sammlung_i_v().iter().map(|w| w.name()).collect();
    assert_eq!(names, vec!["I", "II", "III", "IV", "V"]);
    assert_eq!(Walze::sammlung_i_viii().len(), 8);
    let rotors = Enigma::new([Walze::iii(), Walze::i()]).get_rotors();
    assert_eq!(rotors[0].name(), "III");
    assert_eq!(rotors[1].name(), "I");
}

#[test]
fn notches_decide_when_the_next_rotor_turns() {
    let plain = Walze::new("ABCDEFGHIJKLMNOPQRSTUVWXYZ");
    let mut enigma = Enigma::new([plain, plain]);
    assert!(enigma.encode("AAA").is_ok());
    assert_eq!(enigma.get_walzen_stellung(), [1, 4]);
    let notched = plain.mit_uebertragungskerbe('B').mit_uebertragungskerbe('C');
    let mut enigma = Enigma::new([plain, notched]);
    assert!(enigma.encode("AAA").is_ok());
    assert_eq!(enigma.get_walzen_stellung(), [3, 4]);
}

#[test]
fn key_search_candidates() {
    let pairs = plug_candidates();
    assert_eq!(pairs.len(), 325);
    assert_eq!(pairs[0], ['A', 'B']);
    assert_eq!(pairs[1], ['A', 'C']);
    assert_eq!(pairs[25], ['B', 'C']);
    assert_eq!(pairs[324], ['Y', 'Z']);
    let orders = rotor_orders(5);
    assert_eq!(orders.len(), 60);
    assert_eq!(orders[0], [0, 1, 2]);
    assert_eq!(orders[1], [0, 1, 3]);
    assert_eq!(orders[59], [4, 3, 2]);
    assert!(rotor_orders(2).is_empty());
    assert_eq!(rotor_orders(3), vec![[0, 1, 2], [0, 2, 1], [1, 0, 2], [1, 2, 0], [2, 0, 1], [2, 1, 0]]);
}

#[test]
fn middle_rotor_double_steps() {
    let mut enigma = Enigma::new([Walze::i(), Walze::ii(), Walze::iii()]);
    assert!(enigma.set_walzen_stellung([1, 5, 23]).is_ok());
    assert_eq!(enigma.encode("A").unwrap(), "I");
    assert_eq!(enigma.get_walzen_stellung(), [2, 6, 24]);
    let mut enigma = Enigma::new([Walze::i(), Walze::ii(), Walze::iii()]);
    assert!(enigma.set_walzen_stellung([1, 4, 21]).is_ok());
    assert_eq!(enigma.encode("AAAA").unwrap(), "EQIB");
    assert_eq!(enigma.get_walzen_stellung(), [2, 6, 25]);
}

#[test]
fn raising_ring_and_position_together_changes_nothing_before_a_turnover() {
    let text = "HELLOWORLDABCDEFGHIJ";
    let mut shifted = Enigma::new([Walze::i(), Walze::ii(), Walze::iii()]);
    assert!(shifted.set_ringstellung([1, 1, 2]).is_ok());
    assert!(shifted.set_walzen_stellung([1, 1, 2]).is_ok());
    let mut plain = Enigma::new([Walze::i(), Walze::ii(), Walze::iii()]);
    let a = shifted.encode(text).unwrap();
    let b = plain.encode(text).unwrap();
    assert_eq!(a, "ILBDAAMTAZKFQFSRJQDO");
    assert_eq!(a, b);
}

#[test]
fn default_wheels_are_etw_and_reflector_b() {
    let rotors = [Walze::i(), Walze::iv(), Walze::iii()];
    let mut default = Enigma::new(rotors);
    let mut explicit = Enigma::new(rotors).with_umkehrwalze(Umkehrwalze::ukw_b()).with_eintrittswalze(Eintrittswalze::etw());
    assert_eq!(default.encode(DOC_PLAIN).unwrap(), explicit.encode(DOC_PLAIN).unwrap());
    assert_eq!(default.get_walzen_stellung(), explicit.get_walzen_stellung());
}

#[test]
fn checked_and_unchecked_plugboard_agree() {
    let mut checked = Enigma::new([Walze::i(), Walze::ii(), Walze::iii()]);
    assert!(checked.set_plugboard("QA MZ DE").is_ok());
    assert_eq!(checked.number_of_plugs_set(), 3);
    let mut unchecked = Enigma::new([Walze::i(), Walze::ii(), Walze::iii()]);
    unchecked.set_plugboard_unchecked(&[['Q', 'A'], ['M', 'Z'], ['D', 'E']]);
    assert_eq!(checked.get_plugboard_mapping(), unchecked.get_plugboard_mapping());
    assert_eq!(checked.get_plugboard_mapping(), vec![['A', 'Q'], ['D', 'E'], ['M', 'Z']]);
    assert_eq!(unchecked.number_of_plugs_set(), 3);
    let mut full = Enigma::new([Walze::i()]);
    assert!(full.set_plugboard("AB CD EF GH IJ KL MN OP QR ST UV WX YZ").is_ok());
    assert_eq!(full.number_of_plugs_set(), 13);
    assert_eq!(full.get_plugboard_mapping().len(), 13);
    for c in 'A'..='Z' {
        assert!(full.is_plug_set(c));
    }
}

#[test]
fn letters_are_counted_ignoring_case() {
    let counts = enigma::letter_counts("Hallo, WELT! ßä");
    let mut expected = [0usize; 26];
    for (c, n) in [('H', 1), ('A', 1), ('L', 3), ('O', 1), ('W', 1), ('E', 1), ('T', 1)] {
        expected[(c as u8 - b'A') as usize] = n;
    }
    assert_eq!(counts, expected);
    assert_eq!(enigma::letter_counts(""), [0usize; 26]);
}

#[test]
fn wheels_deref_to_their_inner_wheel() {
    let etw = Eintrittswalze::etw();
    let reflector: &Umkehrwalze = &etw;
    assert_eq!(reflector.name(), "ETW");
    let rotor = Walze::iv();
    let entry: &Eintrittswalze = &rotor;
    assert_eq!(entry.name(), "IV");
}
