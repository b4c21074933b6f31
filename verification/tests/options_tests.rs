use broot::flat_tree::{ChildIterator, TreeLine};
use broot::tree_options::{CliFlags, InputPattern, Sort, TreeOptions};

fn no_flags() -> CliFlags {
    CliFlags {
        sizes: None,
        whale_spotting: false,
        only_folders: None,
        hidden: None,
        dates: None,
        permissions: None,
        gitignore: None,
        git_info: None,
        sort_by_count: false,
        sort_by_date: false,
        sort_by_size: false,
        no_sort: false,
        trim_root: None,
    }
}

#[test]
fn default_options() {
    let o = TreeOptions::default();
    assert!(!o.show_hidden);
    assert!(!o.only_folders);
    assert!(!o.show_counts);
    assert!(!o.show_dates);
    assert!(!o.show_sizes);
    assert!(!o.show_git_file_info);
    assert!(o.trim_root);
    assert!(!o.show_permissions);
    assert!(o.respect_git_ignore);
    assert!(!o.filter_by_git_status);
    assert!(matches!(o.pattern, InputPattern::NoPattern));
    assert_eq!(o.date_time_format, "%Y/%m/%d %R");
    assert_eq!(o.sort, Sort::Unsorted);
}

#[test]
fn needs_follow_display_and_sort() {
    let mut o = TreeOptions::default();
    assert!(!o.needs_counts());
    assert!(!o.needs_dates());
    assert!(!o.needs_sizes());
    assert!(!o.needs_sum());
    o.show_dates = true;
    assert!(o.needs_dates());
    assert!(o.needs_sum());
    o.show_dates = false;
    o.sort = Sort::Size;
    assert!(o.needs_sizes());
    assert!(!o.needs_counts());
    assert!(o.needs_sum());
}

#[test]
fn without_pattern_clears_only_the_pattern() {
    let mut o = TreeOptions::default();
    o.pattern = InputPattern::Fuzzy(String::from("readme"));
    o.show_hidden = true;
    o.sort = Sort::Date;
    let c = o.without_pattern();
    assert!(matches!(c.pattern, InputPattern::NoPattern));
    assert!(c.show_hidden);
    assert_eq!(c.sort, Sort::Date);
    assert_eq!(c.date_time_format, o.date_time_format);
}

#[test]
fn set_date_time_format_stores_the_format() {
    let mut o = TreeOptions::default();
    o.set_date_time_format(String::from("%H:%M"));
    assert_eq!(o.date_time_format, "%H:%M");
}

#[test]
fn whale_spotting_bundle() {
    let mut o = TreeOptions::default();
    let mut f = no_flags();
    f.whale_spotting = true;
    o.apply(&f);
    assert!(o.show_hidden);
    assert!(!o.respect_git_ignore);
    assert_eq!(o.sort, Sort::Size);
    assert!(o.show_sizes);
}

#[test]
fn explicit_flags_override_the_bundle() {
    let mut o = TreeOptions::default();
    let mut f = no_flags();
    f.whale_spotting = true;
    f.hidden = Some(false);
    f.no_sort = true;
    o.apply(&f);
    assert!(!o.show_hidden);
    assert_eq!(o.sort, Sort::Unsorted);
    assert!(o.show_sizes);
}

#[test]
fn sort_switches_set_their_display_toggle() {
    let mut o = TreeOptions::default();
    let mut f = no_flags();
    f.sort_by_count = true;
    o.apply(&f);
    assert_eq!(o.sort, Sort::Count);
    assert!(o.show_counts);

    let mut o2 = TreeOptions::default();
    let mut f2 = no_flags();
    f2.sort_by_date = true;
    f2.sort_by_size = true;
    o2.apply(&f2);
    // the later switch wins, as on the command line
    assert_eq!(o2.sort, Sort::Size);
    assert!(o2.show_dates);
    assert!(o2.show_sizes);
}

#[test]
fn plain_toggles_apply() {
    let mut o = TreeOptions::default();
    let mut f = no_flags();
    f.only_folders = Some(true);
    f.permissions = Some(true);
    f.gitignore = Some(false);
    f.trim_root = Some(false);
    o.apply(&f);
    assert!(o.only_folders);
    assert!(o.show_permissions);
    assert!(!o.respect_git_ignore);
    assert!(!o.trim_root);
}

#[test]
fn cursor_hands_children_out_sorted() {
    let line = TreeLine::create("/d".as_bytes().to_vec(), 0, true);
    let childs: Vec<Vec<u8>> = vec![
        "/d/b".as_bytes().to_vec(),
        "/d/a".as_bytes().to_vec(),
    ];
    let mut it = ChildIterator::from(&line, childs);
    assert_eq!(it.nb_unlisted(), 2);
    assert_eq!(it.next_child(), Some("/d/a".as_bytes().to_vec()));
    assert_eq!(it.nb_unlisted(), 1);
    assert_eq!(it.next_child(), Some("/d/b".as_bytes().to_vec()));
    assert_eq!(it.next_child(), None);
    assert_eq!(it.nb_unlisted(), 0);
}

#[test]
fn cursor_of_a_file_is_empty() {
    let line = TreeLine::create("/d/f".as_bytes().to_vec(), 1, false);
    let mut it = ChildIterator::from(&line, Vec::new());
    assert_eq!(it.nb_unlisted(), 0);
    assert_eq!(it.next_child(), None);
}
