use akasha_core::binary32::{Real, MAX_BITS};
use akasha_core::checkpoint::{
    checkpoint_path, checkpoint_step, checkpoints_to_remove, find_latest_checkpoint, DirEntry,
};
use akasha_core::config::MAX_STEPS;
use akasha_core::training::{config_json, plan_run, RunPlan, StepOutcome, TrainingRun};

fn entry(name: &str) -> DirEntry {
    DirEntry { name: Some(name.to_string()), path: Some(format!("checkpoints/{}", name)) }
}

fn entries(names: &[&str]) -> Vec<DirEntry> {
    names.iter().map(|n| entry(n)).collect()
}

fn num(x: f32) -> Option<Real> {
    Some(Real { bits: x.to_bits() })
}

fn found(path: &str, step: usize) -> Option<(String, usize)> {
    Some((path.to_string(), step))
}

#[test]
fn steps_in_names() {
    assert_eq!(checkpoint_step("model_step_5000.bin"), Some(5000));
    assert_eq!(checkpoint_step("model_step_0.bin"), Some(0));
    assert_eq!(checkpoint_step("model_step_+5.bin"), Some(5));
    assert_eq!(checkpoint_step("model_step_005.bin"), Some(5));
    for name in [
        "model_step_.bin",
        "model_step_-5.bin",
        "model_step_5.bin.tmp",
        "model_step_5",
        "xmodel_step_5.bin",
        "model_step.bin",
        "model_step_99999999999999999999.bin",
        "model_final.bin",
        "model_step_5 .bin",
        "",
    ] {
        assert_eq!(checkpoint_step(name), None);
    }
}

#[test]
fn names_are_read_back() {
    for step in [0usize, 5000, 195_000, usize::MAX] {
        let path = checkpoint_path(step);
        assert_eq!(path, format!("checkpoints\\model_step_{}.bin", step));
        assert_eq!(checkpoint_step(&path[12..]), Some(step));
    }
}

#[test]
fn the_greatest_step_is_the_latest() {
    let all = entries(&["model_step_9000.bin", "config.json", "model_step_10000.bin", "notes"]);
    assert_eq!(
        find_latest_checkpoint(&all),
        found("checkpoints/model_step_10000.bin", 10000)
    );
}

#[test]
fn without_checkpoints_there_is_no_latest() {
    assert_eq!(find_latest_checkpoint(&vec![]), None);
    assert_eq!(find_latest_checkpoint(&entries(&["config.json", "model_step_x.bin"])), None);
}

#[test]
fn a_finished_run_stays_finished() {
    let all = entries(&["model_step_495000.bin", "model_final.bin", "model_step_490000.bin"]);
    assert_eq!(find_latest_checkpoint(&all), found("checkpoints/model_final.bin", MAX_STEPS));
    assert_eq!(plan_run(Some(MAX_STEPS)), RunPlan::Complete { start_step: 500_001 });
}

#[test]
fn of_equal_steps_the_last_is_the_latest() {
    let all = entries(&["model_step_7.bin", "model_step_07.bin", "model_step_3.bin"]);
    assert_eq!(find_latest_checkpoint(&all), found("checkpoints/model_step_07.bin", 7));
    let all = entries(&["model_final.bin", "model_step_500000.bin"]);
    assert_eq!(find_latest_checkpoint(&all), found("checkpoints/model_step_500000.bin", 500_000));
}

#[test]
fn names_and_paths_that_are_not_unicode_are_passed_over() {
    let mut all = entries(&["model_step_1.bin", "model_step_2.bin", "model_step_3.bin"]);
    all[1].path = None;
    all[2].name = None;
    assert_eq!(find_latest_checkpoint(&all), found("checkpoints/model_step_1.bin", 1));
    assert_eq!(checkpoints_to_remove(&all, 0), vec!["checkpoints/model_step_1.bin"]);
}

#[test]
fn only_the_newest_are_kept() {
    let all = entries(&[
        "model_step_15000.bin",
        "model_final.bin",
        "model_step_5000.bin",
        "config.json",
        "model_step_10000.bin",
        "model_step_20000.bin",
        "model_step_100000.bin",
    ]);
    assert_eq!(
        checkpoints_to_remove(&all, 3),
        vec!["checkpoints/model_step_5000.bin", "checkpoints/model_step_10000.bin"]
    );
    assert_eq!(checkpoints_to_remove(&all, 0).len(), 5);
    assert!(checkpoints_to_remove(&all, 5).is_empty());
    assert!(checkpoints_to_remove(&all, 100).is_empty());
    assert!(checkpoints_to_remove(&vec![], 3).is_empty());
}

#[test]
fn of_equal_steps_the_first_goes_first() {
    let all = entries(&["model_step_7.bin", "model_step_07.bin", "model_step_8.bin"]);
    assert_eq!(checkpoints_to_remove(&all, 2), vec!["checkpoints/model_step_7.bin"]);
}

#[test]
fn cleaning_up_does_not_change_where_a_run_resumes() {
    let names = ["model_step_3.bin", "model_step_9.bin", "model_step_1.bin", "model_step_5.bin"];
    let before = find_latest_checkpoint(&entries(&names));
    let gone = checkpoints_to_remove(&entries(&names), 2);
    let rest: Vec<&str> = names
        .iter()
        .filter(|n| !gone.contains(&format!("checkpoints/{}", n)))
        .cloned()
        .collect();
    assert_eq!(rest, vec!["model_step_9.bin", "model_step_5.bin"]);
    assert_eq!(find_latest_checkpoint(&entries(&rest)), before);
}

#[test]
fn where_a_run_begins() {
    assert_eq!(plan_run(None), RunPlan::Train { start_step: 0 });
    assert_eq!(plan_run(Some(0)), RunPlan::Train { start_step: 1 });
    assert_eq!(plan_run(Some(195_000)), RunPlan::Train { start_step: 195_001 });
    assert_eq!(plan_run(Some(499_998)), RunPlan::Train { start_step: 499_999 });
    assert_eq!(plan_run(Some(499_999)), RunPlan::Complete { start_step: 500_000 });
}

#[test]
fn an_interrupted_run_continues() {
    let all = entries(&["model_step_5000.bin", "model_step_10000.bin"]);
    let (_, step) = find_latest_checkpoint(&all).unwrap();
    assert_eq!(plan_run(Some(step)), RunPlan::Train { start_step: 10_001 });
}

#[test]
fn steps_that_are_reported_and_saved() {
    let cases: [(usize, bool, Option<&str>); 6] = [
        (0, true, None),
        (1, false, None),
        (50, true, None),
        (4_999, false, None),
        (5_000, true, Some("checkpoints\\model_step_5000.bin")),
        (495_000, true, Some("checkpoints\\model_step_495000.bin")),
    ];
    for (step, reported, path) in cases {
        let mut run = TrainingRun::begin(step);
        assert_eq!(run.current_step(), step);
        match run.finish_step(num(4.0)) {
            StepOutcome::Continue { log, save } => {
                assert_eq!(log, reported);
                assert_eq!(save.as_deref(), path);
            }
            StepOutcome::Stop { .. } => panic!("training goes on"),
        }
        assert_eq!(run.current_step(), step + 1);
    }
}

#[test]
fn steps_without_a_loss_are_not_reported_but_saved() {
    let mut run = TrainingRun::begin(5_000);
    match run.finish_step(None) {
        StepOutcome::Continue { log, save } => {
            assert!(!log);
            assert_eq!(save, Some("checkpoints\\model_step_5000.bin".to_string()));
        }
        StepOutcome::Stop { .. } => panic!("training goes on"),
    }
    assert_eq!(run.lowest_loss().bits, MAX_BITS);
}

#[test]
fn a_loss_that_is_not_finite_ends_the_run() {
    for loss in [f32::NAN, f32::INFINITY, f32::NEG_INFINITY] {
        let mut run = TrainingRun::begin(5_000);
        match run.finish_step(num(loss)) {
            StepOutcome::Stop { log } => assert!(log),
            StepOutcome::Continue { .. } => panic!("training stops"),
        }
        assert_eq!(run.current_step(), 5_000);
        let mut run = TrainingRun::begin(5_001);
        assert!(matches!(run.finish_step(num(loss)), StepOutcome::Stop { log: false }));
    }
}

#[test]
fn the_lowest_loss_is_kept() {
    let mut run = TrainingRun::begin(1);
    for loss in [num(4.5), None, num(4.25), num(4.75), num(4.25)] {
        run.finish_step(loss);
    }
    assert_eq!(f32::from_bits(run.lowest_loss().bits), 4.25);
    run.finish_step(num(f32::NAN));
    assert_eq!(f32::from_bits(run.lowest_loss().bits), 4.25);
}

#[test]
fn a_run_ends_after_its_last_step() {
    let mut run = TrainingRun::begin(MAX_STEPS - 2);
    assert!(!run.is_done());
    run.finish_step(None);
    assert!(!run.is_done());
    run.finish_step(None);
    assert!(run.is_done());
}

#[test]
fn no_more_than_an_interval_of_steps_is_lost() {
    let mut run = TrainingRun::begin(0);
    let mut last_saved = 0;
    while run.current_step() < 20_000 {
        let step = run.current_step();
        match run.finish_step(None) {
            StepOutcome::Continue { save: Some(_), .. } => last_saved = step,
            StepOutcome::Continue { save: None, .. } => {}
            StepOutcome::Stop { .. } => panic!("training goes on"),
        }
        assert!(step - last_saved < 5_000);
    }
}

#[test]
fn description_of_a_finished_run() {
    let expected = "{\n  \"dim\": 768,\n  \"num_layers\": 12,\n  \"seq_len\": 512,\n  \
        \"ffn_hidden\": 3072,\n  \"vocab_size\": 50257,\n  \"trained_steps\": 500000,\n  \
        \"best_loss\": 3.1416\n}";
    assert_eq!(config_json(&format!("{:.4}", 3.14159f32)), expected);
}

#[test]
fn a_second_cleanup_finds_nothing() {
    let names: Vec<String> = (0..9).map(|i| format!("model_step_{}.bin", 7 * i % 9)).collect();
    let names: Vec<&str> = names.iter().map(|n| n.as_str()).collect();
    for keep in 0..12 {
        let gone = checkpoints_to_remove(&entries(&names), keep);
        let rest: Vec<&str> = names
            .iter()
            .filter(|n| !gone.contains(&format!("checkpoints/{}", n)))
            .cloned()
            .collect();
        assert_eq!(rest.len(), keep.min(9));
        assert!(checkpoints_to_remove(&entries(&rest), keep).is_empty());
    }
}
