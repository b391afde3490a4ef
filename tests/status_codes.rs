use git_global::status::{get_short_format_status, StatusFlags};

fn flags() -> StatusFlags {
    StatusFlags::default()
}

#[test]
fn untracked_file_reads_question_marks() {
    let mut f = flags();
    f.wt_new = true;
    assert_eq!(get_short_format_status(f), "??");
}

#[test]
fn index_new_and_worktree_new_keeps_index_letter() {
    let mut f = flags();
    f.index_new = true;
    f.wt_new = true;
    assert_eq!(get_short_format_status(f), "A?");
}

#[test]
fn index_modified_worktree_clean() {
    let mut f = flags();
    f.index_modified = true;
    assert_eq!(get_short_format_status(f), "M ");
}

#[test]
fn ignored_overrides_other_flags() {
    let mut f = flags();
    f.ignored = true;
    f.index_new = true;
    f.wt_modified = true;
    assert_eq!(get_short_format_status(f), "!!");
}

#[test]
fn conflicted_wins_over_ignored() {
    let mut f = flags();
    f.ignored = true;
    f.conflicted = true;
    assert_eq!(get_short_format_status(f), "CC");
}

#[test]
fn clean_file_reads_two_spaces() {
    assert_eq!(get_short_format_status(flags()), "  ");
}

#[test]
fn index_priority_order() {
    let mut f = flags();
    f.index_deleted = true;
    f.index_renamed = true;
    f.index_typechange = true;
    assert_eq!(get_short_format_status(f), "D ");
    f.index_deleted = false;
    assert_eq!(get_short_format_status(f), "R ");
    f.index_renamed = false;
    assert_eq!(get_short_format_status(f), "T ");
}

#[test]
fn worktree_priority_order() {
    let mut f = flags();
    f.wt_modified = true;
    f.wt_deleted = true;
    assert_eq!(get_short_format_status(f), " M");
    f.wt_modified = false;
    assert_eq!(get_short_format_status(f), " D");
    f.wt_deleted = false;
    f.wt_renamed = true;
    f.wt_typechange = true;
    assert_eq!(get_short_format_status(f), " R");
    f.wt_renamed = false;
    assert_eq!(get_short_format_status(f), " T");
}

#[test]
fn flags_from_status_bits() {
    let f = StatusFlags::from_bits(2 | 256);
    assert!(f.index_modified && f.wt_modified);
    assert!(!f.index_new && !f.wt_new && !f.ignored && !f.conflicted);
    assert_eq!(get_short_format_status(f), "MM");
    let g = StatusFlags::from_bits(128);
    assert_eq!(get_short_format_status(g), "??");
    let h = StatusFlags::from_bits(16384);
    assert_eq!(get_short_format_status(h), "!!");
    let c = StatusFlags::from_bits(32768 | 1);
    assert_eq!(get_short_format_status(c), "CC");
}
