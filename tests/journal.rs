use regret_log::entry::RegretEntry;
use regret_log::recorder::{
    mood_from_choice, new_entry, record, MOOD_CHOICES, SKIP_CHOICE,
};
use regret_log::report::{count_moods, count_tags, review, stats, total_tags, TAG_LIMIT};
use regret_log::store::{log_from_document, Document};
use regret_log::tags::{normalize_tag, normalize_tags, tags_from_pieces};

fn strings(v: &[&str]) -> Vec<String> {
    v.iter().map(|s| s.to_string()).collect()
}

fn entry(ts: &str, text: &str, tags: &[&str], mood: Option<u8>) -> RegretEntry {
    RegretEntry {
        timestamp: ts.to_string(),
        text: text.to_string(),
        tags: strings(tags),
        mood,
    }
}

fn three_records() -> Vec<RegretEntry> {
    vec![
        entry("2024-01-01T10:00:00+00:00", "one", &["a", "b"], Some(1)),
        entry("2024-01-02T10:00:00+00:00", "two", &["a"], None),
        entry("2024-01-03T10:00:00+00:00", "three", &["b", "b"], Some(3)),
    ]
}

#[test]
fn tag_input_is_normalized() {
    assert_eq!(
        normalize_tags(" Work, Work ,, Family "),
        strings(&["work", "work", "family"])
    );
}

#[test]
fn empty_tag_input_gives_no_tags() {
    assert_eq!(normalize_tags(""), Vec::<String>::new());
    assert_eq!(normalize_tags(" , ,\t,"), Vec::<String>::new());
}

#[test]
fn single_tag_is_lowercased() {
    assert_eq!(normalize_tags("HOME"), strings(&["home"]));
}

#[test]
fn one_piece_is_trimmed_then_lowercased() {
    assert_eq!(normalize_tag("  MiXeD Case \t"), "mixed case");
    assert_eq!(normalize_tag("\u{3000}Tokyo\u{a0}"), "tokyo");
    assert_eq!(normalize_tag("   "), "");
}

#[test]
fn pieces_that_come_out_empty_are_dropped() {
    assert_eq!(
        tags_from_pieces(&strings(&[" A ", "", "  ", "b", "A"])),
        strings(&["a", "b", "a"])
    );
}

#[test]
fn mood_choices_map_to_levels() {
    assert_eq!(MOOD_CHOICES, 6);
    assert_eq!(mood_from_choice(0), Some(1));
    assert_eq!(mood_from_choice(2), Some(3));
    assert_eq!(mood_from_choice(4), Some(5));
    assert_eq!(mood_from_choice(SKIP_CHOICE), None);
    assert_eq!(mood_from_choice(5), None);
    assert_eq!(mood_from_choice(9), None);
}

#[test]
fn new_entry_keeps_text_and_normalizes_tags() {
    let e = new_entry(
        "2024-05-05T12:00:00+02:00".to_string(),
        "  Said the wrong thing ".to_string(),
        "Work, FRIENDS",
        1,
    );
    assert_eq!(e.timestamp, "2024-05-05T12:00:00+02:00");
    assert_eq!(e.text, "  Said the wrong thing ");
    assert_eq!(e.tags, strings(&["work", "friends"]));
    assert_eq!(e.mood, Some(2));
}

#[test]
fn new_entry_accepts_empty_text_and_tags() {
    let e = new_entry("t".to_string(), String::new(), "", SKIP_CHOICE);
    assert_eq!(e.text, "");
    assert!(e.tags.is_empty());
    assert_eq!(e.mood, None);
}

#[test]
fn record_appends_one_entry_last() {
    let mut log = three_records();
    let before = log.clone();
    record(&mut log, "late again".to_string(), " Work ,", 5);
    assert_eq!(log.len(), 4);
    assert_eq!(&log[..3], &before[..]);
    let last = &log[3];
    assert_eq!(last.text, "late again");
    assert_eq!(last.tags, strings(&["work"]));
    assert_eq!(last.mood, None);
    assert!(last.timestamp.chars().count() >= 25);
    assert_eq!(last.timestamp.chars().nth(10), Some('T'));
}

#[test]
fn record_on_empty_log() {
    let mut log = Vec::new();
    record(&mut log, "x".to_string(), "", 0);
    assert_eq!(log.len(), 1);
    assert_eq!(log[0].mood, Some(1));
}

#[test]
fn review_of_empty_log_has_nothing_to_show() {
    assert_eq!(review(&Vec::new()), None);
}

#[test]
fn review_lists_most_recent_first() {
    let log = three_records();
    let r = review(&log).unwrap();
    let texts: Vec<&str> = r.iter().map(|e| e.text.as_str()).collect();
    assert_eq!(texts, vec!["three", "two", "one"]);
    assert_eq!(r[0], log[2]);
}

#[test]
fn review_shows_at_most_five() {
    let log: Vec<RegretEntry> = (0..8)
        .map(|i| entry("t", &format!("e{}", i), &[], None))
        .collect();
    let r = review(&log).unwrap();
    let texts: Vec<&str> = r.iter().map(|e| e.text.as_str()).collect();
    assert_eq!(texts, vec!["e7", "e6", "e5", "e4", "e3"]);
}

#[test]
fn read_views_twice_give_the_same() {
    let log = three_records();
    assert_eq!(review(&log), review(&log));
    assert_eq!(stats(&log), stats(&log));
}

#[test]
fn stats_of_three_records() {
    let s = stats(&three_records()).unwrap();
    assert_eq!(
        s.tags,
        vec![("a".to_string(), 2), ("b".to_string(), 3)]
    );
    assert_eq!(s.moods, vec![1, 0, 1, 0, 0]);
}

#[test]
fn stats_of_empty_log_has_nothing_to_analyze() {
    assert_eq!(stats(&Vec::new()), None);
}

#[test]
fn stats_list_at_most_ten_tags() {
    let names: Vec<String> = (0..12).map(|i| format!("t{}", i)).collect();
    let refs: Vec<&str> = names.iter().map(|s| s.as_str()).collect();
    let log = vec![entry("t", "x", &refs, Some(5)), entry("t", "y", &["t11"], Some(5))];
    let full = count_tags(&log);
    assert_eq!(full.len(), 12);
    assert_eq!(full[11], ("t11".to_string(), 2));
    let s = stats(&log).unwrap();
    assert_eq!(s.tags.len(), TAG_LIMIT);
    assert_eq!(s.tags[0], ("t0".to_string(), 1));
    assert_eq!(s.moods, vec![0, 0, 0, 0, 2]);
}

#[test]
fn mood_outside_the_scale_is_not_counted() {
    let log = vec![entry("t", "x", &[], Some(7)), entry("t", "y", &[], Some(0))];
    assert_eq!(count_moods(&log), vec![0, 0, 0, 0, 0]);
}

#[test]
fn total_tags_counts_every_occurrence() {
    assert_eq!(total_tags(&three_records()), Some(5));
    assert_eq!(total_tags(&Vec::new()), Some(0));
}

#[test]
fn absent_document_gives_empty_log() {
    assert!(log_from_document(Document::Absent).is_empty());
}

#[test]
fn corrupt_document_gives_empty_log() {
    assert!(log_from_document(Document::Corrupt).is_empty());
}

#[test]
fn parsed_document_gives_its_entries() {
    let log = three_records();
    assert_eq!(log_from_document(Document::Parsed(log.clone())), log);
}

#[test]
fn copy_keeps_every_field() {
    let e = entry("ts", "text", &["a", "b"], Some(4));
    assert_eq!(e.copy(), e);
}
