use flash::bench::find_losses;
use flash::bench::report;
use flash::bench::Ablation;
use flash::bench::BenchAdapter;
use flash::bench::BenchTask;
use flash::bench::Measurement;
use flash::bench::Regime;
use flash::figures::median;
use flash::figures::p90;
use flash::figures::total;

fn m(ablation: Ablation, regime: Regime, wall: u64, computed: usize) -> Measurement {
    Measurement {
        task: "t".into(),
        ablation: ablation.label().into(),
        regime: regime.label().into(),
        wall_ms: wall,
        first_change_ms: Some(1),
        nodes: 10,
        computed,
        hits: 10 - computed,
        saved_ms: 0,
        decode_ms: 5,
        apply_ms: 2,
        verify_ms: 3,
        render_ms: 0,
        wait_ms: 1,
        op_resolve_pct: "100".into(),
        fallback_pct: "0".into(),
        green: true,
    }
}

#[test]
fn the_report_has_a_row_per_ablation_and_regime() {
    let data = vec![
        m(Ablation::OpsOnly, Regime::Cold, 100, 10),
        m(Ablation::Full, Regime::Cold, 90, 10),
        m(Ablation::Full, Regime::Hot, 5, 0),
    ];
    let text = report(&data);
    assert!(text.contains("ops only"));
    assert!(text.contains("+ incremental"));
    assert!(text.contains("hot"));
    assert!(
        text.contains("| + incremental | hot | 5 ms | 5 ms | 0 | 10 | 1 ms | yes |\n"),
        "{text}"
    );
    assert!(
        text.contains("| ops only | cold | 5 ms | 2 ms | 3 ms | 0 ms | 1 ms |\n"),
        "{text}"
    );
    assert!(
        text.contains("| t | hot | 5 ms | 0 / 10 | 0 ms | 100% | 0% |\n"),
        "{text}"
    );
}

#[test]
fn losses_are_found_not_hidden() {
    // The full configuration being slower than a simpler one must show up in the report.
    let data = vec![
        m(Ablation::OpsLadderImpact, Regime::Cold, 50, 10),
        m(Ablation::Full, Regime::Cold, 80, 10),
    ];
    let losses = find_losses(&data);
    assert_eq!(losses.len(), 1, "{losses:?}");
    assert!(losses[0].contains("30 ms slower"), "{}", losses[0]);
    assert!(report(&data).contains("Losses"));
    assert_eq!(
        losses[0],
        "cold: + incremental is 30 ms slower than ops + ladder + impact (80 ms vs 50 ms). The extra work is real; it buys correctness rather than speed in this regime."
    );
}

#[test]
fn a_report_with_no_losses_says_so_plainly() {
    let data = vec![
        m(Ablation::OpsOnly, Regime::Cold, 100, 10),
        m(Ablation::Full, Regime::Cold, 40, 10),
    ];
    assert!(find_losses(&data).is_empty());
    assert!(report(&data).contains("No configuration was slower"));
}

#[test]
fn percentiles_do_not_panic_on_one_sample_or_none() {
    assert_eq!(median(vec![]), 0);
    assert_eq!(p90(vec![]), 0);
    assert_eq!(p90(vec![7]), 7);
    assert_eq!(median(vec![1, 2, 3]), 2);
}

#[test]
fn ninety_in_a_hundred_are_at_or_under_the_ninetieth() {
    assert_eq!(p90((1..=10).collect()), 9);
    assert_eq!(p90((1..=11).collect()), 10);
    assert_eq!(p90((1..=100).rev().collect()), 90);
    assert_eq!(median(vec![4, 1]), 4);
    assert_eq!(total(&vec![u64::MAX, 1]), 1u128 << 64);
}

#[test]
fn only_the_full_configuration_keeps_its_store() {
    let dirs: Vec<String> = (0..4).map(|i| Ablation::at(i).store_dir(2)).collect();
    assert_eq!(dirs, vec![".flash-2", ".flash-2", ".flash-2", ".flash"]);
    assert_eq!(Ablation::OpsOnly.levels(), vec![0]);
    assert_eq!(Ablation::Full.levels(), vec![0, 1]);
    let regimes: Vec<&str> = (0..3).map(|i| Regime::at(i).label()).collect();
    assert_eq!(regimes, vec!["cold", "warm", "hot"]);
}

#[test]
fn a_frozen_task_scripts_its_models() {
    let task = BenchTask {
        id: "t".into(),
        kind: "doc".into(),
        instruction: "x".into(),
        targets: vec![],
        plan: "{}".into(),
        executor: vec![
            ("".into(), "[1]".into()),
            ("mark".into(), "[2]".into()),
            ("".into(), "[3]".into()),
        ],
        warm_change: None,
    };
    let model = task.scripted_executor();
    assert_eq!(model.rules, vec![("mark".to_string(), "[2]".to_string())]);
    assert_eq!(model.default, Some("[3]".to_string()));
    assert_eq!(task.adapter(), BenchAdapter::Doc);
    assert_eq!(task.runs(), 1);
}
