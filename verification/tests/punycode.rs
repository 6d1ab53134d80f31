use binda::punycode::{decode, encode, label_from_ascii, label_to_ascii, PunycodeError};

#[test]
fn round_trips_pure_ascii_label() {
    let ascii = label_to_ascii("example").unwrap();
    assert_eq!(ascii, "example");
    assert_eq!(label_from_ascii(&ascii).unwrap(), "example");
}

#[test]
fn round_trips_emoji_label() {
    let ascii = label_to_ascii("🔥").unwrap();
    assert!(ascii.starts_with("xn--"));
    assert_eq!(label_from_ascii(&ascii).unwrap(), "🔥");
}

#[test]
fn round_trips_mixed_script_label() {
    let original = "مرحبا";
    let ascii = label_to_ascii(original).unwrap();
    assert!(ascii.starts_with("xn--"));
    assert_eq!(label_from_ascii(&ascii).unwrap(), original);
}

#[test]
fn round_trips_known_vector() {
    let ascii = label_to_ascii("ü").unwrap();
    assert_eq!(ascii, "xn--tda");
    assert_eq!(label_from_ascii(&ascii).unwrap(), "ü");
}

#[test]
fn encodes_the_published_samples() {
    let samples = [
        ("ليهمابتكلموشعربي؟", "egbpdaj6bu4bxfgehfvwxn"),
        ("他们为什么不说中文", "ihqwcrb4cv8a8dqg056pqjye"),
        ("他們爲什麽不說中文", "ihqwctvzc91f659drss3x8bo0yb"),
        ("Pročprostěnemluvíčesky", "Proprostnemluvesky-uyb24dma41a"),
        ("3年B組金八先生", "3B-ww4c5e180e575a65lsy2b"),
        ("安室奈美恵-with-SUPER-MONKEYS", "-with-SUPER-MONKEYS-pc58ag80a8qai00g7n9n"),
        ("Hello-Another-Way-それぞれの場所", "Hello-Another-Way--fc4qua05auwb3674vfr0b"),
        ("ひとつ屋根の下2", "2-u9tlzr9756bt3uc0v"),
        ("MajiでKoiする5秒前", "MajiKoi5-783gue6qz075azm5e"),
        ("パフィーdeルンバ", "de-jg4avhby1noc0d"),
        ("そのスピードで", "d9juau41awczczp"),
        ("-> $1.00 <-", "-> $1.00 <--"),
    ];
    for (plain, spelled) in samples {
        assert_eq!(encode(plain).unwrap(), spelled);
        assert_eq!(decode(spelled).unwrap(), plain);
    }
}

#[test]
fn empty_text_stays_empty() {
    assert_eq!(encode("").unwrap(), "");
    assert_eq!(decode("").unwrap(), "");
}

#[test]
fn decode_refuses_what_is_no_digit() {
    assert_eq!(decode("a_"), Err(PunycodeError::InvalidInput));
    assert_eq!(decode("ü-tda"), Err(PunycodeError::InvalidInput));
}

#[test]
fn decode_refuses_a_number_that_is_cut_off() {
    assert_eq!(decode("9"), Err(PunycodeError::InvalidInput));
}

#[test]
fn decode_refuses_a_number_that_is_too_large() {
    assert_eq!(decode("99999999999"), Err(PunycodeError::Overflow));
}

#[test]
fn decode_refuses_a_surrogate() {
    assert_eq!(decode("hb9b").unwrap(), "\u{d7ff}");
    assert_eq!(decode("ib9b"), Err(PunycodeError::InvalidInput));
}

#[test]
fn digits_are_read_in_either_case() {
    assert_eq!(decode("TDA").unwrap(), "ü");
}

#[test]
fn ascii_label_that_looks_encoded_is_decoded() {
    let ascii = label_to_ascii("xn--tda").unwrap();
    assert_eq!(ascii, "xn--tda");
    assert_eq!(label_from_ascii(&ascii).unwrap(), "ü");
}

#[test]
fn punycode_error_messages() {
    assert_eq!(
        PunycodeError::InvalidInput.to_string(),
        "punycode input contains an invalid basic code point"
    );
    assert_eq!(
        PunycodeError::Overflow.to_string(),
        "punycode overflow while encoding or decoding"
    );
}

#[test]
fn long_label_round_trips() {
    let label: String = (0..2000u32)
        .map(|i| char::from_u32(0x4e00 + (i * 7919) % 0x5000).unwrap())
        .collect();
    let ascii = label_to_ascii(&label).unwrap();
    assert!(ascii.is_ascii());
    assert_eq!(label_from_ascii(&ascii).unwrap(), label);
}

#[test]
fn highest_scalar_value_round_trips() {
    let label = "a\u{10ffff}b\u{10ffff}";
    assert_eq!(label_from_ascii(&label_to_ascii(label).unwrap()).unwrap(), label);
}

#[test]
fn label_of_some_thousand_characters_returns() {
    let label: String = (0..3855).map(|i| if i % 2 == 0 { '\u{10ffff}' } else { 'é' }).collect();
    let ascii = label_to_ascii(&label).unwrap();
    assert!(ascii.is_ascii());
    assert_eq!(label_from_ascii(&ascii), Ok(label));
}
