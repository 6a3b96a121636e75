use mini_lsm::tiered::{
    LsmStorageState, TieredCompactionController, TieredCompactionOptions, TieredCompactionTask,
};

fn options(
    num_tiers: usize,
    max_size_amplification_percent: usize,
    size_ratio: usize,
    min_merge_width: usize,
    max_merge_width: Option<usize>,
) -> TieredCompactionOptions {
    TieredCompactionOptions {
        num_tiers,
        max_size_amplification_percent,
        size_ratio,
        min_merge_width,
        max_merge_width,
    }
}

/// Tiers with ids 0.. and the given numbers of tables, table ids counting up.
fn snapshot_with_sizes(sizes: &[usize]) -> LsmStorageState {
    let mut next = 100;
    let mut levels = Vec::new();
    for (id, size) in sizes.iter().enumerate() {
        let tables: Vec<usize> = (next..next + size).collect();
        next += size;
        levels.push((id, tables));
    }
    LsmStorageState { levels }
}

fn tier_ids(task: &TieredCompactionTask) -> Vec<usize> {
    task.tiers.iter().map(|t| t.0).collect()
}

#[test]
fn no_task_below_num_tiers() {
    let c = TieredCompactionController::new(options(3, 200, 1, 2, None));
    assert!(c.generate_compaction_task(&snapshot_with_sizes(&[1, 1])).is_none());
    assert!(c.generate_compaction_task(&snapshot_with_sizes(&[])).is_none());
}

#[test]
fn space_amplification_at_threshold_takes_priority() {
    // Five tables above a bottom tier of five: 100%. Tier 1 also outgrows tier 0
    // fourfold, which alone would fire the size-ratio trigger.
    let c = TieredCompactionController::new(options(3, 100, 100, 1, None));
    let snapshot = snapshot_with_sizes(&[1, 4, 5]);
    let task = c.generate_compaction_task(&snapshot).unwrap();
    assert_eq!(task.tiers, snapshot.levels);
    assert!(task.bottom_tier_included);
}

#[test]
fn space_amplification_just_below_threshold_does_not_fire() {
    let c = TieredCompactionController::new(options(3, 101, 100, 5, Some(2)));
    let snapshot = snapshot_with_sizes(&[1, 4, 5]);
    let task = c.generate_compaction_task(&snapshot).unwrap();
    assert_eq!(tier_ids(&task), vec![0, 1]);
    assert!(!task.bottom_tier_included);
}

#[test]
fn size_ratio_below_trigger_falls_back_to_all_tiers() {
    let c = TieredCompactionController::new(options(3, 200, 100, 2, None));
    let snapshot = snapshot_with_sizes(&[10, 10, 25]);
    let task = c.generate_compaction_task(&snapshot).unwrap();
    assert_eq!(tier_ids(&task), vec![0, 1, 2]);
    assert!(task.bottom_tier_included);
}

#[test]
fn size_ratio_trigger_selects_prefix() {
    let c = TieredCompactionController::new(options(3, 200, 100, 2, None));
    let snapshot = snapshot_with_sizes(&[10, 10, 50]);
    let task = c.generate_compaction_task(&snapshot).unwrap();
    assert_eq!(tier_ids(&task), vec![0, 1]);
    assert_eq!(task.tiers[0], snapshot.levels[0]);
    assert_eq!(task.tiers[1], snapshot.levels[1]);
    assert!(!task.bottom_tier_included);
}

#[test]
fn size_ratio_respects_min_merge_width() {
    // Tier 1 outgrows tier 0, but only one tier lies before it.
    let c = TieredCompactionController::new(options(3, 1000, 100, 2, Some(1)));
    let snapshot = snapshot_with_sizes(&[1, 5, 10]);
    let task = c.generate_compaction_task(&snapshot).unwrap();
    assert_eq!(tier_ids(&task), vec![0]);
    assert!(!task.bottom_tier_included);
}

#[test]
fn fallback_is_capped_by_max_merge_width() {
    let c = TieredCompactionController::new(options(2, 1000, 100, 2, Some(3)));
    let snapshot = snapshot_with_sizes(&[2, 2, 2, 2, 3]);
    let task = c.generate_compaction_task(&snapshot).unwrap();
    assert_eq!(tier_ids(&task), vec![0, 1, 2]);
    assert!(!task.bottom_tier_included);
}

#[test]
fn empty_bottom_tier_fires_space_amplification() {
    let c = TieredCompactionController::new(options(2, 500, 100, 2, None));
    let snapshot = snapshot_with_sizes(&[1, 0]);
    let task = c.generate_compaction_task(&snapshot).unwrap();
    assert_eq!(tier_ids(&task), vec![0, 1]);
    assert!(task.bottom_tier_included);
}

#[test]
fn apply_replaces_selected_tiers_with_output_tier() {
    let (a, b, c, d) = (10, 11, 12, 13);
    let snapshot = LsmStorageState { levels: vec![(0, vec![a]), (1, vec![b]), (2, vec![c])] };
    let task = TieredCompactionTask {
        tiers: vec![(1, vec![b]), (2, vec![c])],
        bottom_tier_included: true,
    };
    let ctl = TieredCompactionController::new(options(3, 200, 1, 2, None));
    let (new_snapshot, removed) = ctl.apply_compaction_result(&snapshot, &task, &[d]);
    assert_eq!(new_snapshot.levels, vec![(0, vec![a]), (d, vec![d])]);
    assert_eq!(removed, vec![b, c]);
}

#[test]
fn apply_keeps_newer_tiers_after_the_output_tier() {
    let snapshot = snapshot_with_sizes(&[1, 2, 1]);
    let task = TieredCompactionTask {
        tiers: vec![snapshot.levels[0].clone(), snapshot.levels[1].clone()],
        bottom_tier_included: false,
    };
    let ctl = TieredCompactionController::new(options(3, 200, 1, 2, None));
    let (new_snapshot, removed) = ctl.apply_compaction_result(&snapshot, &task, &[200, 201]);
    assert_eq!(new_snapshot.levels, vec![(200, vec![200, 201]), (2, vec![103])]);
    assert_eq!(removed, vec![100, 101, 102]);
}
