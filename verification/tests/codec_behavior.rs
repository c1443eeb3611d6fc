use benchmaker::check_number;
use benchmaker::decode_parameters;
use benchmaker::decode_score;
use benchmaker::decode_string_list;
use benchmaker::encode_parameters;
use benchmaker::encode_score;
use benchmaker::encode_string_list;
use benchmaker::ModelParameters;
use benchmaker::ScoringResult;

#[test]
fn number_texts_are_recognised() {
    assert!(check_number("0"));
    assert!(check_number("-12"));
    assert!(check_number("0.7"));
    assert!(check_number("1.5e-3"));
    assert!(check_number("2E+10"));
    assert!(!check_number(""));
    assert!(!check_number("-"));
    assert!(!check_number("1."));
    assert!(!check_number("1e"));
    assert!(!check_number("abc"));
    assert!(!check_number("1,5"));
}

#[test]
fn parameters_encode_to_canonical_json() {
    let p = ModelParameters {
        temperature: "0.7".to_string(),
        top_p: "1.0".to_string(),
        max_tokens: 1024,
        frequency_penalty: "0.0".to_string(),
        presence_penalty: "0.0".to_string(),
    };
    assert_eq!(
        encode_parameters(&p),
        "{\"temperature\":0.7,\"topP\":1.0,\"maxTokens\":1024,\"frequencyPenalty\":0.0,\"presencePenalty\":0.0}"
    );
}

#[test]
fn parameters_round_trip() {
    let p = ModelParameters {
        temperature: "0.35".to_string(),
        top_p: "0.95".to_string(),
        max_tokens: -7,
        frequency_penalty: "1.5e-3".to_string(),
        presence_penalty: "2.0".to_string(),
    };
    let text = encode_parameters(&p);
    assert_eq!(decode_parameters(&text), p);
}

#[test]
fn unparseable_parameters_fall_back_to_defaults() {
    let defaults = ModelParameters {
        temperature: "0.7".to_string(),
        top_p: "1.0".to_string(),
        max_tokens: 1024,
        frequency_penalty: "0.0".to_string(),
        presence_penalty: "0.0".to_string(),
    };
    assert_eq!(decode_parameters("not json at all"), defaults);
    assert_eq!(decode_parameters(""), defaults);
    assert_eq!(decode_parameters("{}"), defaults);
    assert_eq!(decode_parameters("{\"temperature\":oops}"), defaults);
    // a maxTokens value beyond the machine range degrades too
    assert_eq!(
        decode_parameters(
            "{\"temperature\":0.7,\"topP\":1.0,\"maxTokens\":99999999999999999999,\"frequencyPenalty\":0.0,\"presencePenalty\":0.0}"
        ),
        defaults
    );
}

#[test]
fn string_lists_round_trip() {
    let tags = vec!["plain".to_string(), "with \"quote\"".to_string(), "back\\slash".to_string()];
    let text = encode_string_list(&tags);
    assert_eq!(decode_string_list(&text), tags);
}

#[test]
fn empty_string_list_encodes_to_empty_array() {
    let tags: Vec<String> = vec![];
    assert_eq!(encode_string_list(&tags), "[]");
    assert!(decode_string_list("[]").is_empty());
}

#[test]
fn unparseable_string_lists_degrade_to_empty() {
    assert!(decode_string_list("").is_empty());
    assert!(decode_string_list("[").is_empty());
    assert!(decode_string_list("[\"a\"").is_empty());
    assert!(decode_string_list("[\"a\",]").is_empty());
    assert!(decode_string_list("{\"a\":1}").is_empty());
}

#[test]
fn scores_round_trip() {
    let v = ScoringResult {
        score: "0.8".to_string(),
        confidence: Some("0.9".to_string()),
        notes: Some("solid \"answer\"".to_string()),
        raw_score: None,
        max_score: Some("1.0".to_string()),
    };
    let text = encode_score(&v);
    assert_eq!(decode_score(&text), Some(v));
}

#[test]
fn score_with_all_optionals_absent_round_trips() {
    let v = ScoringResult {
        score: "1.0".to_string(),
        confidence: None,
        notes: None,
        raw_score: None,
        max_score: None,
    };
    let text = encode_score(&v);
    assert_eq!(
        text,
        "{\"score\":1.0,\"confidence\":null,\"notes\":null,\"rawScore\":null,\"maxScore\":null}"
    );
    assert_eq!(decode_score(&text), Some(v));
}

#[test]
fn unparseable_scores_degrade_to_none() {
    assert_eq!(decode_score(""), None);
    assert_eq!(decode_score("null"), None);
    assert_eq!(decode_score("{\"score\":}"), None);
    assert_eq!(decode_score("{\"points\":1}"), None);
}

#[test]
fn control_characters_are_escaped_like_json() {
    let tags = vec!["a\nb".to_string(), "c\td".to_string(), "e\u{1}f".to_string()];
    let text = benchmaker::encode_string_list(&tags);
    assert_eq!(text, "[\"a\\nb\",\"c\\td\",\"e\\u0001f\"]");
    assert_eq!(benchmaker::decode_string_list(&text), tags);
}

#[test]
fn standard_json_escapes_are_read_back() {
    let decoded = benchmaker::decode_string_list(
        "[\"line\\nbreak\",\"tab\\there\",\"sol\\/idus\",\"bell\\u0007!\",\"quote\\\"q\"]",
    );
    assert_eq!(
        decoded,
        vec![
            "line\nbreak".to_string(),
            "tab\there".to_string(),
            "sol/idus".to_string(),
            "bell\u{7}!".to_string(),
            "quote\"q".to_string(),
        ]
    );
}

#[test]
fn score_notes_with_escapes_round_trip() {
    let v = benchmaker::ScoringResult {
        score: "0.5".to_string(),
        confidence: None,
        notes: Some("first\nsecond\t\"quoted\"".to_string()),
        raw_score: None,
        max_score: None,
    };
    let text = benchmaker::encode_score(&v);
    assert_eq!(benchmaker::decode_score(&text), Some(v));
}

#[test]
fn astral_unicode_escapes_degrade() {
    // a \uXXXX code above U+00FF is refused, and the row degrades
    assert!(benchmaker::decode_string_list("[\"x\\u1234\"]").is_empty());
    assert!(benchmaker::decode_string_list("[\"x\\uzzzz\"]").is_empty());
}
