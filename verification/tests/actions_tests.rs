use themistocle::{occurrence_message, parse_action, tag_names, MotifAction};

#[test]
fn parse_action_reads_known_choices() {
    assert_eq!(parse_action("Remove"), MotifAction::Remove);
    assert_eq!(parse_action("Recolor"), MotifAction::Recolor);
    assert_eq!(parse_action("Count"), MotifAction::Count);
}

#[test]
fn parse_action_unknown_choice() {
    assert_eq!(parse_action("count"), MotifAction::Unknown);
    assert_eq!(parse_action(""), MotifAction::Unknown);
    assert_eq!(parse_action("Removed"), MotifAction::Unknown);
}

#[test]
fn tag_names_suffix_motif() {
    assert_eq!(tag_names("0A0B"), ("0A0B_bg".to_string(), "0A0B_fg".to_string()));
    assert_eq!(tag_names(""), ("_bg".to_string(), "_fg".to_string()));
}

#[test]
fn occurrence_message_writes_count() {
    assert_eq!(occurrence_message(0), "Nombre d'occurence : 0");
    assert_eq!(occurrence_message(12), "Nombre d'occurence : 12");
    assert_eq!(occurrence_message(i32::MAX), format!("Nombre d'occurence : {}", i32::MAX));
}
