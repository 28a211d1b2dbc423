use themistocle::{count_word, find_motif, search};

fn chars(s: &str) -> Vec<char> {
    s.chars().collect()
}

#[test]
fn count_word_counts_first_occurrence() {
    assert_eq!(count_word(&chars("abab"), "ab"), Some(1));
}

#[test]
fn count_word_steps_two_characters_at_a_time() {
    assert_eq!(count_word(&chars("0A0B0A0B"), "0A"), Some(2));
    assert_eq!(count_word(&chars("A1A1A1A1A1A1"), "A1"), Some(3));
}

#[test]
fn count_word_never_checks_the_last_window() {
    assert_eq!(count_word(&chars("ABCDEF"), "EF"), Some(0));
}

#[test]
fn count_word_motif_wider_than_text() {
    assert_eq!(count_word(&chars("AB"), "ABC"), Some(0));
    assert_eq!(count_word(&chars(""), "AB"), Some(0));
}

#[test]
fn count_word_empty_motif_on_empty_text() {
    assert_eq!(count_word(&chars(""), ""), Some(0));
}

#[test]
fn count_word_across_lines() {
    assert_eq!(count_word(&chars("ABAB\nABAB"), "AB"), Some(2));
    assert_eq!(count_word(&chars("ab\nab\nab"), "ab"), Some(1));
}

#[test]
fn motif_with_line_break_is_never_found() {
    assert_eq!(count_word(&chars("A\nB"), "A\nB"), Some(0));
}

#[test]
fn motif_width_counts_utf8_bytes() {
    assert_eq!(count_word(&chars("aéaé"), "é"), Some(0));
}

#[test]
fn search_gives_start_and_end_offsets() {
    assert_eq!(search(&chars("0A0B0A0B"), "0A"), vec![(0, 2), (4, 6)]);
}

#[test]
fn search_may_tag_a_window_that_runs_backwards() {
    assert_eq!(search(&chars("0A0B0A0B\n0A0B"), "0B"), vec![(2, 4), (4, 2)]);
}

#[test]
fn count_matches_number_of_tagged_ranges() {
    for (text, motif) in [("0A0B0A0B\n0A0B", "0B"), ("A1A1A1A1A1A1", "A1"), ("abcab", "ab")] {
        let t = chars(text);
        assert_eq!(count_word(&t, motif), Some(search(&t, motif).len() as i32));
    }
}

#[test]
fn find_motif_reports_endless_scan_of_empty_motif() {
    assert_eq!(find_motif(&chars("AB"), ""), None);
}

#[test]
fn find_motif_agrees_with_search() {
    let t = chars("aaaa");
    assert_eq!(find_motif(&t, "aa"), Some(vec![(0, 2)]));
    assert_eq!(search(&t, "aa"), vec![(0, 2)]);
}
