use subtitles::subtitle::{
    adjust_last_subtitle, prepare_subtitles_from_sentence, split_into_subtitles,
    subtitle_from_index,
};

/// Tests prepare_subtitles_from_sentence().
#[test]
fn test_prepare_subtitles_from_sentence() {
    // Dangling subtitle should be merged with second last one.
    let long_sentence = "Jerusalem is a city in Western Asia, on a plateau in the Judaean Mountains between the Mediterranean and the Dead Sea.";
    let subtitle_list = prepare_subtitles_from_sentence(long_sentence, 9, 4);

    let expected = vec![
        "Jerusalem is a city in Western Asia, on a".to_string(),
        "plateau in the Judaean Mountains between the Mediterranean and the Dead Sea.".to_string(),
    ];
    assert_eq!(expected, subtitle_list);

    // Three subtitles.
    let subtitle_list2 = prepare_subtitles_from_sentence(long_sentence, 8, 4);

    let expected2 = vec![
        "Jerusalem is a city in Western Asia, on".to_string(),
        "a plateau in the Judaean Mountains between the".to_string(),
        "Mediterranean and the Dead Sea.".to_string(),
    ];
    assert_eq!(expected2, subtitle_list2);

    // Three subtitles; last one is the smallest possible.
    let sentence_w_20_words = "Jerusalem is a city in Western Asia, on a plateau in the Judaean Mountains between the Mediterranean and the Dead...";
    let subtitle_list3 = prepare_subtitles_from_sentence(sentence_w_20_words, 8, 4);

    let expected3 = vec![
        "Jerusalem is a city in Western Asia, on".to_string(),
        "a plateau in the Judaean Mountains between the".to_string(),
        "Mediterranean and the Dead...".to_string(),
    ];
    assert_eq!(expected3, subtitle_list3);

    // No dandling subtitle is possible.
    let sentence_w_18_words = "Jerusalem is a city in Western Asia, on a plateau in the Judaean Mountains between the Mediterranean and...";
    let subtitle_list4 = prepare_subtitles_from_sentence(sentence_w_18_words, 9, 4);

    let expected4 = vec![
        "Jerusalem is a city in Western Asia, on a".to_string(),
        "plateau in the Judaean Mountains between the Mediterranean and...".to_string(),
    ];
    assert_eq!(expected4, subtitle_list4);
}

/// Tests adjust_last_subtitle().
#[test]
fn test_adjust_last_subtitle() {
    // Only one subtitle.
    let mut subtitle_list = vec!["foo".to_string()];
    adjust_last_subtitle(&mut subtitle_list);

    let expected = vec!["foo".to_string()];
    assert_eq!(expected, subtitle_list);

    // Several subtitles.
    let mut subtitle_list2 = vec!["foo".to_string(), "bar".to_string(), "baz".to_string()];
    adjust_last_subtitle(&mut subtitle_list2);

    let expected2 = vec!["foo".to_string(), "bar baz".to_string()];
    assert_eq!(expected2, subtitle_list2);
}

#[test]
fn sentence_without_words_yields_no_chunk() {
    let subtitle_list = prepare_subtitles_from_sentence("?!! ... --", 10, 4);
    assert_eq!(Vec::<String>::new(), subtitle_list);
}

#[test]
fn split_into_subtitles_keeps_sentence_order() {
    let text = "The quick brown fox jumps over a lazy dog today. The dog sleeps.";
    let subtitle_list = split_into_subtitles(text);

    let expected = vec![
        "The quick brown fox jumps over a lazy dog today.".to_string(),
        "The dog sleeps.".to_string(),
    ];
    assert_eq!(expected, subtitle_list);
}

#[test]
fn split_into_subtitles_empty_text() {
    assert_eq!(Vec::<String>::new(), split_into_subtitles(""));
}

#[test]
fn split_into_subtitles_merges_dangling_chunk() {
    // Thirteen words with the default bounds (10, 4): the three-word
    // remainder is merged back into the ten-word chunk.
    let text = "One two three four five six seven eight nine ten eleven twelve thirteen.";
    let subtitle_list = split_into_subtitles(text);

    let expected = vec![
        "One two three four five six seven eight nine ten eleven twelve thirteen.".to_string(),
    ];
    assert_eq!(expected, subtitle_list);
}

#[test]
fn subtitle_from_index_takes_word_span_and_trims() {
    let sentence = "ab cd ef";
    let word_char_indices = vec![0, 3, 6];
    assert_eq!("ab cd", subtitle_from_index(0, 2, sentence, &word_char_indices));
    assert_eq!("cd", subtitle_from_index(1, 1, sentence, &word_char_indices));
}
