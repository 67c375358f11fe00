use subtitles::placeholder::Placeholders;
use subtitles::srt::{format_timecode, get_grapheme_count, prepare_srt_content, SrtError};

#[test]
fn timecode_renders_minutes_seconds_millis() {
    assert_eq!("00:01:05,500", format_timecode(65500));
}

#[test]
fn timecode_zero() {
    assert_eq!("00:00:00,000", format_timecode(0));
}

#[test]
fn timecode_last_milli_before_minute() {
    assert_eq!("00:00:59,999", format_timecode(59999));
}

#[test]
fn timecode_minutes_grow_past_59_without_hours() {
    assert_eq!("00:60:00,000", format_timecode(3_600_000));
    assert_eq!("00:123:04,050", format_timecode(7_384_050));
}

#[test]
fn grapheme_count_ignores_non_alphanumeric() {
    let no_abbr = Placeholders::new(&Vec::new());
    assert_eq!(6, get_grapheme_count("abc 12!? 3", &no_abbr));
}

#[test]
fn grapheme_count_expands_abbreviations() {
    let abbr_map: Vec<(String, String)> =
        vec![("UN".to_string(), "United Nations".to_string())];
    let placeholder = Placeholders::new(&abbr_map);
    let text = placeholder.insert("The UN votes.");
    // Counted as "TheUnitedNationsvotes".
    assert_eq!(21, get_grapheme_count(&text, &placeholder));
}

#[test]
fn srt_single_chunk_gets_whole_duration() {
    let out = prepare_srt_content("Hello world.", 10, &Vec::new()).unwrap();
    assert_eq!("1\n00:00:00,000 --> 00:00:10,000\nHello world.\n\n", out);
}

#[test]
fn srt_durations_are_proportional_and_sum_to_total() {
    // Spoken lengths: "Helloworld" = 10, "Byenow" = 6; 4000 ms split 10:6.
    let out = prepare_srt_content("Hello world. Bye now.", 4, &Vec::new()).unwrap();
    let expected = "1\n00:00:00,000 --> 00:00:02,500\nHello world.\n\n\
                    2\n00:00:02,500 --> 00:00:04,000\nBye now.\n\n";
    assert_eq!(expected, out);
}

#[test]
fn srt_abbreviation_timed_as_full_form() {
    // With "UN" spoken as "United Nations" the first chunk counts
    // 21 spoken graphemes against 9, so it gets 7000 of the 10000 ms.
    let abbr_map: Vec<(String, String)> =
        vec![("UN".to_string(), "United Nations".to_string())];
    let out = prepare_srt_content("The UN votes. Yes indeed.", 10, &abbr_map).unwrap();
    let expected = "1\n00:00:00,000 --> 00:00:07,000\nThe UN votes.\n\n\
                    2\n00:00:07,000 --> 00:00:10,000\nYes indeed.\n\n";
    assert_eq!(expected, out);

    // A chunk that literally holds the same number of alphanumeric
    // graphemes as the expanded form is timed the same way.
    let out2 = prepare_srt_content("The UnitedNations votes. Yes indeed.", 10, &Vec::new())
        .unwrap();
    let expected2 = "1\n00:00:00,000 --> 00:00:07,000\nThe UnitedNations votes.\n\n\
                     2\n00:00:07,000 --> 00:00:10,000\nYes indeed.\n\n";
    assert_eq!(expected2, out2);

    // Without the abbreviation table the written "UN" counts only two
    // graphemes, and the split shifts.
    let out3 = prepare_srt_content("The UN votes. Yes indeed.", 10, &Vec::new()).unwrap();
    let expected3 = "1\n00:00:00,000 --> 00:00:05,263\nThe UN votes.\n\n\
                     2\n00:00:05,263 --> 00:00:10,000\nYes indeed.\n\n";
    assert_eq!(expected3, out3);
}

#[test]
fn srt_degenerate_input_is_rejected() {
    assert_eq!(Err(SrtError::DegenerateInput), prepare_srt_content("", 10, &Vec::new()));
    assert_eq!(
        Err(SrtError::DegenerateInput),
        prepare_srt_content("?!. --- ...", 10, &Vec::new())
    );
}

#[test]
fn srt_degenerate_after_expansion_is_rejected() {
    // The only alphanumeric content is an abbreviation whose spoken full
    // form is empty, so the expanded transcript has nothing to time.
    let abbr_map: Vec<(String, String)> = vec![("ab".to_string(), "".to_string())];
    assert_eq!(
        Err(SrtError::DegenerateInput),
        prepare_srt_content("ab.", 10, &abbr_map)
    );
}

#[test]
fn srt_digits_only_text_has_no_chunks() {
    // Digits are alphanumeric content, so the input is not degenerate, but
    // no segment holds an alphabetic character, so no subtitle is cut.
    assert_eq!(Ok(String::new()), prepare_srt_content("123 456.", 10, &Vec::new()));
}
