use toml::value::Datetime;
use wwidl::{current_datetime, Config, MessageData, RepoData};

fn date(text: &str) -> Datetime {
    text.parse::<Datetime>().unwrap()
}

/// A store with one entry, `/path/to/repo`, holding two notes.
fn example_config() -> Config {
    let messages = vec![
        MessageData::new(
            "test message".to_string(),
            date("2022-01-05T14:00:52.000000-08:00"),
        ),
        MessageData::new(
            "test message 2".to_string(),
            date("2022-01-05T14:00:53.000000-08:00"),
        ),
    ];
    Config::from_repos(vec![RepoData::new("/path/to/repo".to_string(), messages)]).unwrap()
}

fn texts(notes: &[MessageData]) -> Vec<String> {
    notes.iter().map(|m| m.message().to_string()).collect()
}

#[test]
fn default_config_should_have_not_repos() {
    let config = Config::default();
    assert_eq!(config.repos().len(), 0);
}

#[test]
fn test_get_last_message() {
    let config = example_config();
    let last_message = config
        .repo_data("/path/to/repo")
        .unwrap()
        .last_message()
        .unwrap();
    assert_eq!(last_message.message(), "test message 2");
    let expected_date_string = "2022-01-05T14:00:53-08:00";
    assert_eq!(last_message.date().to_string(), expected_date_string);
}

#[test]
fn test_current_datetime() {
    let dt = current_datetime();
    let dt2 = current_datetime();
    assert_ne!(dt, dt2);
}

#[test]
fn test_put_note() {
    let mut config = example_config();
    let repo_count_before = config.repos().len();
    config.put_note("/path/to/foo/bar/another/repo", "another test message".to_string());
    let repo_count_after = config.repos().len();
    assert_eq!(repo_count_before + 1, repo_count_after);

    let repo_data = config.repo_data("/path/to/foo/bar/another/repo").unwrap();
    assert_eq!(repo_data.messages().len(), 1);
    assert_eq!(repo_data.messages()[0].message(), "another test message");
}

#[test]
fn test_remove_note() {
    let mut config = example_config();
    let note_count_before = config.repos()[0].messages().len();
    let result = config.remove_notes("/path/to/repo", 1);
    let note_count_after = config.repos()[0].messages().len();
    assert_eq!(note_count_before - 1, note_count_after);
    assert_eq!(result.len(), 1);

    let repo_data = config.repo_data("/path/to/repo");
    assert!(repo_data.is_some());
}

#[test]
fn test_remove_two_notes() {
    let mut config = example_config();
    let result = config.remove_notes("/path/to/repo", 2);
    assert_eq!(result.len(), 2);

    let repo_data = config.repo_data("/path/to/repo");
    assert!(repo_data.is_none());
}

#[test]
fn absent_path_finds_nothing() {
    let config = example_config();
    assert!(config.repo_data("/path/to").is_none());
    assert!(config.repo_data("/path/to/repo/").is_none());
    assert!(config.all_notes("/elsewhere").is_empty());
    assert!(config.latest_note("/elsewhere").is_none());
}

#[test]
fn first_note_creates_entry_second_appends() {
    let mut config = Config::default();
    config.put_note_dated("/repo1", "A".to_string(), date("2022-01-05T14:00:52Z"));
    assert_eq!(config.repos().len(), 1);
    assert_eq!(config.repo_data("/repo1").unwrap().messages().len(), 1);
    config.put_note_dated("/repo1", "B".to_string(), date("2022-01-05T14:00:53Z"));
    assert_eq!(config.repos().len(), 1);
    assert_eq!(config.repo_data("/repo1").unwrap().messages().len(), 2);
}

#[test]
fn latest_and_all_notes_follow_additions() {
    let mut config = Config::default();
    config.put_note("/repo1", "A".to_string());
    assert_eq!(config.latest_note("/repo1").unwrap().message(), "A");
    config.put_note("/repo1", "B".to_string());
    assert_eq!(config.latest_note("/repo1").unwrap().message(), "B");
    let all: Vec<&str> = config.all_notes("/repo1").iter().map(|m| m.message()).collect();
    assert_eq!(all, vec!["A", "B"]);
}

#[test]
fn dated_note_keeps_its_timestamp() {
    let mut config = Config::default();
    config.put_note_dated("/repo1", "A".to_string(), date("2022-01-05T14:00:52-08:00"));
    let latest = config.latest_note("/repo1").unwrap();
    assert_eq!(latest.date().to_string(), "2022-01-05T14:00:52-08:00");
}

fn three_note_config() -> Config {
    let mut config = Config::default();
    config.put_note_dated("/repo1", "A".to_string(), date("2022-01-05T14:00:50Z"));
    config.put_note_dated("/repo1", "B".to_string(), date("2022-01-05T14:00:51Z"));
    config.put_note_dated("/repo1", "C".to_string(), date("2022-01-05T14:00:52Z"));
    config
}

#[test]
fn removing_two_of_three_returns_newest_first() {
    let mut config = three_note_config();
    let removed = config.remove_notes("/repo1", 2);
    assert_eq!(texts(&removed), vec!["C", "B"]);
    assert_eq!(texts(config.repo_data("/repo1").unwrap().messages()), vec!["A"]);
}

#[test]
fn removing_more_than_held_returns_all_and_drops_entry() {
    let mut config = three_note_config();
    let removed = config.remove_notes("/repo1", 10);
    assert_eq!(texts(&removed), vec!["C", "B", "A"]);
    assert!(config.repo_data("/repo1").is_none());
    assert_eq!(config.repos().len(), 0);
}

#[test]
fn removing_the_only_note_drops_entry() {
    let mut config = Config::default();
    config.put_note_dated("/repo1", "only".to_string(), date("2022-01-05T14:00:52Z"));
    let removed = config.remove_notes("/repo1", 1);
    assert_eq!(texts(&removed), vec!["only"]);
    assert!(config.repo_data("/repo1").is_none());
}

#[test]
fn removing_from_absent_path_changes_nothing() {
    let mut config = example_config();
    let removed = config.remove_notes("/nonexistent", 5);
    assert!(removed.is_empty());
    assert_eq!(config.repos().len(), 1);
    assert_eq!(
        texts(config.repo_data("/path/to/repo").unwrap().messages()),
        vec!["test message", "test message 2"]
    );
}

#[test]
fn removing_zero_notes_is_a_no_op() {
    let mut config = three_note_config();
    let removed = config.remove_notes("/repo1", 0);
    assert!(removed.is_empty());
    assert_eq!(texts(config.repo_data("/repo1").unwrap().messages()), vec!["A", "B", "C"]);
}

#[test]
fn other_paths_are_untouched() {
    let mut config = three_note_config();
    config.put_note_dated("/repo2", "X".to_string(), date("2022-01-05T14:00:53Z"));
    config.remove_notes("/repo1", 3);
    assert_eq!(texts(config.repo_data("/repo2").unwrap().messages()), vec!["X"]);
    config.put_note_dated("/repo1", "D".to_string(), date("2022-01-05T14:00:54Z"));
    assert_eq!(config.repos()[0].path(), "/repo2");
    assert_eq!(config.repos()[1].path(), "/repo1");
}

#[test]
fn from_repos_rejects_duplicates_and_empty_entries() {
    let note = || MessageData::new("n".to_string(), date("2022-01-05T14:00:52Z"));
    let dup = vec![
        RepoData::new("/a".to_string(), vec![note()]),
        RepoData::new("/a".to_string(), vec![note()]),
    ];
    assert!(Config::from_repos(dup).is_none());
    let empty = vec![RepoData::new("/a".to_string(), vec![])];
    assert!(Config::from_repos(empty).is_none());
    let fine = vec![
        RepoData::new("/a".to_string(), vec![note()]),
        RepoData::new("/b".to_string(), vec![note(), note()]),
    ];
    let config = Config::from_repos(fine).unwrap();
    assert_eq!(config.repos().len(), 2);
    assert!(Config::from_repos(vec![]).is_some());
}

#[test]
fn repo_data_mut_reaches_the_entry() {
    let mut config = example_config();
    assert_eq!(config.repo_data_mut("/path/to/repo").unwrap().path(), "/path/to/repo");
    assert!(config.repo_data_mut("/missing").is_none());
}
