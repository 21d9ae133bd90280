use morsebot::MorseError;
use morsebot::codec::Alphabet;

fn pairs() -> Vec<(char, String)> {
    let entries = [
        ('A', ".-"),
        ('B', "-..."),
        ('C', "-.-."),
        ('D', "-.."),
        ('E', "."),
        ('F', "..-."),
        ('G', "--."),
        ('H', "...."),
        ('I', ".."),
        ('J', ".---"),
        ('K', "-.-"),
        ('L', ".-.."),
        ('M', "--"),
        ('N', "-."),
        ('O', "---"),
        ('P', ".--."),
        ('Q', "--.-"),
        ('R', ".-."),
        ('S', "..."),
        ('T', "-"),
        ('U', "..-"),
        ('V', "...-"),
        ('W', ".--"),
        ('X', "-..-"),
        ('Y', "-.--"),
        ('Z', "--.."),
        ('0', "-----"),
        ('1', ".----"),
        ('2', "..---"),
        ('3', "...--"),
        ('4', "....-"),
        ('5', "....."),
        ('6', "-...."),
        ('7', "--..."),
        ('8', "---.."),
        ('9', "----."),
        ('.', ".-.-.-"),
        (',', "--..--"),
        ('?', "..--.."),
        ('-', "-....-"),
        ('/', "-..-."),
        (' ', "/"),
    ];
    let mut v: Vec<(char, String)> = Vec::new();
    for (c, p) in entries {
        v.push((c, p.to_string()));
    }
    v
}

fn table() -> Alphabet {
    Alphabet::from_pairs(pairs())
}

#[test]
fn to_morse_tests() {
    let converter = table();
    assert_eq!(
        converter.to_morse("Hello World"),
        ".... . .-.. .-.. --- / .-- --- .-. .-.. -.."
    );
    assert_eq!(converter.to_morse("    Test    "), "- . ... -");
    assert_eq!(converter.to_morse(".-"), ".-.-.- -....-");
    assert_eq!(converter.to_morse("\x00te\x00st\x00"), "- . ... -");
}

#[test]
fn from_morse_tests() {
    let converter = table();
    assert_eq!(converter.from_morse("- . ... -").to_uppercase(), "TEST");
    assert_eq!(converter.from_morse(".- / -...").to_uppercase(), "A B");
}

#[test]
fn encode_known_vectors() {
    let converter = table();
    assert_eq!(converter.to_morse("Test"), "- . ... -");
    assert_eq!(converter.from_morse("- . ... -"), "TEST");
}

#[test]
fn encode_empty_input() {
    let converter = table();
    assert_eq!(converter.to_morse(""), "");
    assert_eq!(converter.from_morse(""), "");
}

#[test]
fn normalization_is_idempotent() {
    let converter = table();
    let canonical = converter.to_morse("TEST");
    assert_eq!(converter.to_morse(" test "), canonical);
    assert_eq!(converter.to_morse("Test"), canonical);
    assert_eq!(canonical, "- . ... -");
}

#[test]
fn unmapped_characters_vanish() {
    let converter = table();
    assert_eq!(
        converter.to_morse("\x00te\x00st\x00"),
        converter.to_morse("test")
    );
    assert_eq!(converter.to_morse("\x00\x01\x02"), "");
}

#[test]
fn round_trip_every_table_character() {
    let converter = table();
    for (c, _) in pairs() {
        if c.is_whitespace() {
            // White space is trimmed from the input before encoding, so the
            // word separator cannot round-trip on its own.
            continue;
        }
        let encoded = converter.to_morse(&c.to_string());
        let decoded = converter.from_morse(&encoded);
        assert_eq!(decoded, c.to_uppercase().to_string());
    }
}

#[test]
fn decode_restores_word_separators() {
    let converter = table();
    assert_eq!(converter.from_morse("... --- ... / ... --- ..."), "SOS SOS");
}

#[test]
fn decode_skips_unknown_tokens() {
    let converter = table();
    assert_eq!(converter.from_morse("- .??. ."), "TE");
}

#[test]
fn decode_accepts_underscore_patterns() {
    // The table itself decides which glyphs match: a pattern written with
    // underscores is matched verbatim.
    let mut entries: Vec<(char, String)> = Vec::new();
    entries.push(('T', "_".to_string()));
    let converter = Alphabet::from_pairs(entries);
    assert_eq!(converter.from_morse("_"), "T");
}

#[test]
fn first_matching_entry_wins() {
    let mut entries: Vec<(char, String)> = Vec::new();
    entries.push(('A', ".-".to_string()));
    entries.push(('B', ".-".to_string()));
    let converter = Alphabet::from_pairs(entries);
    assert_eq!(converter.from_morse(".-"), "A");
    assert_eq!(converter.to_morse("ab"), ".- .-");
}

#[test]
fn from_ron_parses_a_table() {
    let converter = Alphabet::from_ron("[('T', \"-\"), ('E', \".\")]").unwrap();
    assert_eq!(converter.to_morse("te"), "- .");
    assert_eq!(converter.from_morse("- ."), "TE");
}

#[test]
fn from_ron_rejects_malformed_text() {
    let result = Alphabet::from_ron("this is not a symbol table");
    assert!(matches!(result, Err(MorseError::TableUnavailable)));
}
