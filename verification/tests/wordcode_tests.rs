use hashed_objects::hex::{digit_of, digit_str, push_hex};
use hashed_objects::word_index::WordIndex;
use hashed_objects::wordcode::{nibbles_per_word_for, Normalizer, WordCode};

fn strings(words: &[&str]) -> Vec<String> {
    words.iter().map(|word| word.to_string()).collect()
}

fn four_words() -> Vec<String> {
    strings(&["alpha", "bravo", "charlie", "delta"])
}

fn numbered(count: usize) -> Vec<String> {
    (0..count).map(|i| format!("w{}", i)).collect()
}

#[test]
fn encode_maps_each_group_to_the_word_at_its_position() {
    let code = WordCode::new("nato".to_string(), four_words(), None);
    assert_eq!(code.nibbles_per_word(), 1);
    assert!(code.can_encode("20"));
    assert_eq!(code.encode("20"), Ok(strings(&["charlie", "alpha"])));
    assert_eq!(code.encode("02"), Ok(strings(&["alpha", "charlie"])));
    assert_eq!(code.encode("3120"), Ok(strings(&["delta", "bravo", "charlie", "alpha"])));
    assert_eq!(code.encode(""), Ok(Vec::new()));
}

#[test]
fn decode_ignores_case_by_default() {
    let mut code = WordCode::new("nato".to_string(), four_words(), None);
    assert_eq!(code.decode(&strings(&["CHARLIE", "Alpha"])), Ok("20".to_string()));
    assert_eq!(code.decode(&strings(&["alpha", "charlie"])), Ok("02".to_string()));
    assert_eq!(code.decode(&[]), Ok(String::new()));
}

#[test]
fn decode_names_the_unknown_word() {
    let mut code = WordCode::new("nato".to_string(), four_words(), None);
    assert_eq!(
        code.decode(&strings(&["echo"])),
        Err("Received a word that is not in the dictionary 'nato': echo".to_string())
    );
}

#[test]
fn decode_names_the_first_unknown_word_as_it_was_given() {
    let mut code = WordCode::new("nato".to_string(), four_words(), None);
    assert_eq!(
        code.decode(&strings(&["alpha", "Echo", "foxtrot"])),
        Err("Received a word that is not in the dictionary 'nato': Echo".to_string())
    );
}

#[test]
fn encode_refuses_a_string_that_does_not_divide_into_groups() {
    let code = WordCode::new("wide".to_string(), numbered(17), None);
    assert_eq!(code.nibbles_per_word(), 2);
    assert!(code.can_encode("0"));
    assert!(code.can_encode("001"));
    assert_eq!(
        code.encode("001"),
        Err("Hex string length is not a multiple of the bits-per-word constant.".to_string())
    );
    assert!(code.can_encode("g"));
    assert_eq!(
        code.encode("g"),
        Err("Hex string length is not a multiple of the bits-per-word constant.".to_string())
    );
}

#[test]
fn can_encode_tells_what_encode_takes() {
    let code = WordCode::new("nato".to_string(), four_words(), None);
    assert!(code.can_encode(""));
    assert!(code.can_encode("0123"));
    assert!(!code.can_encode("4"));
    assert!(!code.can_encode("0f"));
    assert!(!code.can_encode("0g"));
    assert!(!code.can_encode("+1"));
    assert!(!code.can_encode("0 "));
    assert!(!code.can_encode("\u{e9}"));
    let wide = WordCode::new("wide".to_string(), numbered(17), None);
    assert!(wide.can_encode("10"));
    assert!(wide.can_encode("0A0a"));
    assert!(!wide.can_encode("11"));
    assert!(!wide.can_encode("+1"));
    assert!(wide.can_encode("\u{e9}1"));
    assert!(!wide.can_encode("\u{e9}"));
}

#[test]
fn dictionaries_of_one_word_or_none_code_nothing() {
    let one = WordCode::new("one".to_string(), strings(&["only"]), None);
    assert_eq!(one.nibbles_per_word(), 0);
    assert!(!one.can_encode(""));
    assert!(!one.can_encode("0"));
    let none = WordCode::new("none".to_string(), Vec::new(), None);
    assert_eq!(none.nibbles_per_word(), 0);
    assert!(!none.can_encode(""));
}

#[test]
fn decode_with_one_word_writes_one_digit() {
    let mut one = WordCode::new("one".to_string(), strings(&["only"]), None);
    assert_eq!(one.decode(&strings(&["only", "ONLY"])), Ok("00".to_string()));
    let mut none = WordCode::new("none".to_string(), Vec::new(), None);
    assert_eq!(none.decode(&[]), Ok(String::new()));
    assert_eq!(
        none.decode(&strings(&["x"])),
        Err("Received a word that is not in the dictionary 'none': x".to_string())
    );
}

#[test]
fn nibbles_per_word_is_the_least_width_for_every_position() {
    assert_eq!(nibbles_per_word_for(0), 0);
    assert_eq!(nibbles_per_word_for(1), 0);
    assert_eq!(nibbles_per_word_for(2), 1);
    assert_eq!(nibbles_per_word_for(4), 1);
    assert_eq!(nibbles_per_word_for(16), 1);
    assert_eq!(nibbles_per_word_for(17), 2);
    assert_eq!(nibbles_per_word_for(256), 2);
    assert_eq!(nibbles_per_word_for(257), 3);
    assert_eq!(nibbles_per_word_for(2048), 3);
    assert_eq!(nibbles_per_word_for(4096), 3);
    assert_eq!(nibbles_per_word_for(4097), 4);
    assert_eq!(nibbles_per_word_for(usize::MAX), (usize::BITS / 4) as usize);
}

#[test]
fn round_trip_gives_the_string_back_in_upper_case() {
    let mut code = WordCode::new("wide".to_string(), numbered(256), None);
    assert_eq!(code.nibbles_per_word(), 2);
    for hex in ["", "00", "ff", "0a1B2c", "DEADBEEF", "00ff7f80"] {
        assert!(code.can_encode(hex));
        let words = code.encode(hex).unwrap();
        assert_eq!(words.len(), hex.len() / 2);
        assert_eq!(code.decode(&words), Ok(hex.to_uppercase()));
    }
    assert_eq!(code.encode("0a1B"), Ok(strings(&["w10", "w27"])));
}

#[test]
fn round_trip_pads_positions_to_the_width() {
    let mut code = WordCode::new("wide".to_string(), numbered(17), None);
    let words = code.encode("0510").unwrap();
    assert_eq!(words, strings(&["w5", "w16"]));
    assert_eq!(code.decode(&words), Ok("0510".to_string()));
}

#[test]
fn round_trip_over_every_group_of_a_small_dictionary() {
    let mut code = WordCode::new("nato".to_string(), four_words(), None);
    for a in 0..4u32 {
        for b in 0..4u32 {
            let hex = format!("{:X}{:X}", a, b);
            let words = code.encode(&hex).unwrap();
            assert_eq!(code.decode(&words), Ok(hex));
        }
    }
}

#[test]
fn check_tells_membership_under_the_normalizer() {
    let mut code = WordCode::new("nato".to_string(), four_words(), None);
    assert!(code.check("alpha"));
    assert!(code.check("ALPHA"));
    assert!(code.check("dElTa"));
    assert!(!code.check("echo"));
    assert!(!code.check(""));
    assert!(!code.check("alpha "));
}

#[test]
fn verbatim_normalizer_compares_as_written() {
    let mut code = WordCode::new("nato".to_string(), four_words(), Some(Normalizer::Verbatim));
    assert!(code.check("alpha"));
    assert!(!code.check("Alpha"));
    assert_eq!(code.decode(&strings(&["delta"])), Ok("3".to_string()));
    assert_eq!(
        code.decode(&strings(&["Delta"])),
        Err("Received a word that is not in the dictionary 'nato': Delta".to_string())
    );
}

#[test]
fn lowercase_normalizer_lowers_dictionary_and_word() {
    let mut code = WordCode::new(
        "mixed".to_string(),
        strings(&["Alpha", "BRAVO"]),
        Some(Normalizer::Lowercase),
    );
    assert!(code.check("alpha"));
    assert!(code.check("bravo"));
    assert_eq!(code.decode(&strings(&["bravo", "ALPHA"])), Ok("10".to_string()));
    assert_eq!(Normalizer::Lowercase.normalize("MiXeD \u{c9}"), "mixed \u{e9}");
    assert_eq!(Normalizer::Verbatim.normalize("MiXeD"), "MiXeD");
}

#[test]
fn of_words_with_one_form_the_last_position_is_decoded() {
    let mut code = WordCode::new("twice".to_string(), strings(&["same", "other", "SAME"]), None);
    assert_eq!(code.decode(&strings(&["same"])), Ok("2".to_string()));
    assert_eq!(code.encode("0"), Ok(strings(&["same"])));
}

#[test]
fn hex_digits_are_read_in_both_cases() {
    assert_eq!(digit_of(b'0'), Some(0));
    assert_eq!(digit_of(b'9'), Some(9));
    assert_eq!(digit_of(b'a'), Some(10));
    assert_eq!(digit_of(b'f'), Some(15));
    assert_eq!(digit_of(b'A'), Some(10));
    assert_eq!(digit_of(b'F'), Some(15));
    assert_eq!(digit_of(b'g'), None);
    assert_eq!(digit_of(b'G'), None);
    assert_eq!(digit_of(b'/'), None);
    assert_eq!(digit_of(b':'), None);
    assert_eq!(digit_of(b'@'), None);
    assert_eq!(digit_of(b'`'), None);
    assert_eq!(digit_of(0xe9), None);
}

#[test]
fn hex_digits_are_written_in_upper_case() {
    let all: String = (0..16).map(digit_str).collect();
    assert_eq!(all, "0123456789ABCDEF");
}

#[test]
fn push_hex_pads_with_zeros_and_never_cuts() {
    let mut out = String::from(">");
    push_hex(&mut out, 0, 0);
    assert_eq!(out, ">0");
    push_hex(&mut out, 0xab, 4);
    assert_eq!(out, ">000AB");
    push_hex(&mut out, 0x1234, 2);
    assert_eq!(out, ">000AB1234");
    push_hex(&mut out, 5, 1);
    assert_eq!(out, ">000AB12345");
    let mut wide = String::new();
    push_hex(&mut wide, u64::MAX, 1);
    assert_eq!(wide, "FFFFFFFFFFFFFFFF");
}

#[test]
fn dictionary_is_unambiguous_when_all_forms_differ() {
    let mut plain = WordCode::new("nato".to_string(), four_words(), None);
    assert!(plain.is_unambiguous());
    let mut folded = WordCode::new("twice".to_string(), strings(&["same", "other", "SAME"]), None);
    assert!(!folded.is_unambiguous());
    let mut kept = WordCode::new(
        "twice".to_string(),
        strings(&["same", "other", "SAME"]),
        Some(Normalizer::Verbatim),
    );
    assert!(kept.is_unambiguous());
    let mut none = WordCode::new("none".to_string(), Vec::new(), None);
    assert!(none.is_unambiguous());
}

#[test]
fn ambiguous_dictionary_does_not_round_trip() {
    let mut code = WordCode::new("twice".to_string(), strings(&["a", "A"]), None);
    let words = code.encode("0").unwrap();
    assert_eq!(words, strings(&["a"]));
    assert_eq!(code.decode(&words), Ok("1".to_string()));
}

#[test]
fn forms_handed_in_are_looked_up_as_they_are() {
    let forms = strings(&["a", "b", "c", "d"]);
    let mut code = WordCode::with_forms("nato".to_string(), four_words(), forms).unwrap();
    assert_eq!(code.nibbles_per_word(), 1);
    assert_eq!(code.dict_name(), "nato");
    assert_eq!(code.words(), &four_words());
    assert_eq!(code.encode("31"), Ok(strings(&["delta", "bravo"])));
    assert_eq!(code.decode(&strings(&["d", "b"])), Ok("31".to_string()));
    assert!(code.check("c"));
    assert!(!code.check("C"));
    assert!(!code.check("charlie"));
    assert!(code.is_unambiguous());
    assert_eq!(
        code.decode(&strings(&["delta"])),
        Err("Received a word that is not in the dictionary 'nato': delta".to_string())
    );
}

#[test]
fn forms_must_come_one_for_each_word() {
    assert!(WordCode::with_forms("nato".to_string(), four_words(), strings(&["a"])).is_none());
    assert!(WordCode::with_forms("nato".to_string(), Vec::new(), strings(&["a"])).is_none());
    assert!(WordCode::with_forms("none".to_string(), Vec::new(), Vec::new()).is_some());
}

#[test]
fn encode_after_decode_gives_the_words_back() {
    let mut code = WordCode::new("wide".to_string(), numbered(17), None);
    let words = strings(&["w16", "w0", "w9"]);
    let hex = code.decode(&words).unwrap();
    assert_eq!(hex, "100009");
    assert!(code.can_encode(&hex));
    assert_eq!(code.encode(&hex), Ok(words));
}

#[test]
fn positions_are_written_in_the_width_of_the_dictionary() {
    let mut code = WordCode::new("wide".to_string(), numbered(257), None);
    assert_eq!(code.nibbles_per_word(), 3);
    assert_eq!(code.decode(&strings(&["w0"])), Ok("000".to_string()));
    assert_eq!(code.decode(&strings(&["w256"])), Ok("100".to_string()));
    assert_eq!(code.decode(&strings(&["w255"])), Ok("0FF".to_string()));
}

#[test]
fn index_finds_the_last_position_of_a_form() {
    let index = WordIndex::build(strings(&["same", "other", "same", "third", "same", "other"]));
    assert_eq!(index.position(&"same".to_string()), Some(4));
    assert_eq!(index.position(&"other".to_string()), Some(5));
    assert_eq!(index.position(&"third".to_string()), Some(3));
    assert_eq!(index.position(&"none".to_string()), None);
    assert_eq!(index.position(&String::new()), None);
    assert_eq!(index.all_forms().len(), 6);
    assert_eq!(WordIndex::build(Vec::new()).position(&"same".to_string()), None);
}

#[test]
fn index_agrees_with_a_search_through_the_forms() {
    let forms = numbered(300);
    let index = WordIndex::build(forms.clone());
    for at in [0usize, 1, 17, 255, 299] {
        let form = format!("w{}", at);
        assert_eq!(index.position(&form), Some(at));
        assert_eq!(index.position(&form), forms.iter().rposition(|held| *held == form));
    }
    assert_eq!(index.position(&"w300".to_string()), None);
}
