use icondiff::artifact::{artifact_key, reformat_svg, segments_key};
use icondiff::driver::{bad_count, count_defects, judge_renders, run_succeeds};
use icondiff::filter::filter_icons;
use icondiff::icon::{canonical_icon_set, Icon};
use icondiff::outline::{
    equivalent_outlines, equivalent_paths, parse_path, split_subpaths, subpaths_equivalent,
    DiffError, Seg,
};
use icondiff::reconcile::reconcile;

fn svg_of(d: &str) -> String {
    format!("<svg xmlns=\"x\"><path d=\"{}\" fill=\"red\"/></svg>", d)
}

#[test]
fn parse_path_splits_at_the_d_attribute() {
    let svg = "<svg><path d=\"M0,0 L1,1z\" fill=\"x\"/></svg>";
    let (pre, path, suf) = parse_path(svg).unwrap();
    assert_eq!(pre, "<svg><path d=\"");
    assert_eq!(path, "M0,0 L1,1z");
    assert_eq!(suf, "\" fill=\"x\"/></svg>");
}

#[test]
fn parse_path_reports_missing_attribute() {
    assert!(matches!(parse_path("<svg></svg>"), Err(DiffError::NoPathElement)));
    assert!(matches!(parse_path("<path d=\"M0,0"), Err(DiffError::UnterminatedPath)));
}

#[test]
fn subpaths_split_at_move_commands() {
    let parts = split_subpaths("M0,0 L1,1zM2,2 L3,3z");
    assert_eq!(parts, vec!["M0,0 L1,1z", "M2,2 L3,3z"]);
    let one = split_subpaths("m1,1 l2,2");
    assert_eq!(one, vec!["m1,1 l2,2"]);
    let none = split_subpaths("");
    assert!(none.is_empty());
}

#[test]
fn identical_outlines_are_equivalent() {
    let a = svg_of("M0,0 L1,0 L1,1z");
    assert_eq!(equivalent_paths("ic", &a, &a), Ok(true));
}

#[test]
fn formatting_differences_do_not_matter() {
    // the same outline written with different separators and float spellings
    let a = svg_of("M0 0L1 1");
    let b = svg_of("M0,0 L1.0,1.0");
    assert_eq!(equivalent_paths("ic", &a, &b), Ok(true));
}

#[test]
fn coordinate_changes_are_defects() {
    let a = svg_of("M0,0 L1,0 L1,1z");
    let b = svg_of("M0,0 L1,0 L1,2z");
    assert_eq!(equivalent_paths("ic", &a, &b), Ok(false));
}

#[test]
fn missing_segment_is_a_defect() {
    // one side's subpath lacks one segment
    let a = svg_of("M0,0 L1,0 L1,1z");
    let b = svg_of("M0,0 L1,0z");
    assert_eq!(equivalent_paths("ic", &a, &b), Ok(false));
}

#[test]
fn subpath_count_mismatch_is_always_a_defect() {
    let a = svg_of("M0,0 L1,1zM2,2 L3,3z");
    let b = svg_of("M0,0 L1,1z");
    assert_eq!(equivalent_paths("ic", &a, &b), Ok(false));
}

#[test]
fn unparsable_path_is_an_error_not_a_judgement() {
    let a = svg_of("M0,0 L1,1z");
    let b = svg_of("M0,0 Q1");
    match equivalent_paths("home", &a, &b) {
        Err(DiffError::UnparsablePath { icon }) => assert_eq!(icon, "home"),
        other => panic!("expected an unparsable-path error, got {:?}", other),
    }
}

#[test]
fn rotation_by_one_is_tolerated() {
    // a closed contour re-authored to start one segment later
    let a = vec![Seg::Close, Seg::Move((0, 1)), Seg::Line((2, 3))];
    let b = vec![Seg::Move((0, 1)), Seg::Line((2, 3)), Seg::Close];
    assert!(subpaths_equivalent(&a, &b));
    assert!(subpaths_equivalent(&a, &a));
    assert!(equivalent_outlines(&vec![a.clone()], &vec![b.clone()]));
}

#[test]
fn rotation_by_two_is_a_defect() {
    let b = vec![Seg::Move((0, 1)), Seg::Line((2, 3)), Seg::Line((4, 5)), Seg::Close];
    // rotate right by two
    let a = vec![Seg::Line((4, 5)), Seg::Close, Seg::Move((0, 1)), Seg::Line((2, 3))];
    assert!(!subpaths_equivalent(&a, &b));
}

#[test]
fn segment_type_change_is_a_defect() {
    let a = vec![Seg::Move((0, 1)), Seg::Line((2, 3))];
    let b = vec![Seg::Move((0, 1)), Seg::Quad((2, 3), (4, 5))];
    assert!(!subpaths_equivalent(&a, &b));
}

#[test]
fn empty_subpaths_compare_equal() {
    let a: Vec<Seg> = Vec::new();
    let b: Vec<Seg> = Vec::new();
    assert!(subpaths_equivalent(&a, &b));
    assert!(!subpaths_equivalent(&a, &vec![Seg::Close]));
}

#[test]
fn artifact_keys_are_deterministic_and_distinct() {
    assert_eq!(artifact_key("home", "left", 3), "failure.home.left.3.svg");
    assert_eq!(artifact_key("home", "right", 3), "failure.home.right.3.svg");
    assert_eq!(artifact_key("home", "left", 12), "failure.home.left.12.svg");
    assert_eq!(segments_key("home", "left", 0), "failure.home.left.0.segments");
    assert_ne!(artifact_key("home", "left", 0), artifact_key("zoom", "left", 0));
}

#[test]
fn reformat_puts_each_command_on_its_own_line() {
    let svg = "<svg><path d=\"M0,0L1,1z\" k=\"v\"/></svg>";
    let out = reformat_svg(svg).unwrap();
    assert_eq!(out, "<svg><path d=\"\nM0,0\nL1,1\nz\n\" k=\"v\"/></svg>");
    assert!(matches!(reformat_svg("<svg/>"), Err(DiffError::NoPathElement)));
}

#[test]
fn name_filter_restricts_the_icon_set() {
    let icons = vec![
        Icon::new(vec!["home".to_string()], vec![1]),
        Icon::new(vec!["search".to_string()], vec![2]),
        Icon::new(vec!["home_work".to_string()], vec![3]),
    ];
    let re = regex::Regex::new("^home").unwrap();
    let kept = filter_icons(&icons, &re);
    let keys: Vec<String> = kept.iter().map(|i| i.key()).collect();
    assert_eq!(keys, vec!["home", "home_work"]);
    assert!(regex::Regex::new("[").is_err());
}

#[test]
fn judge_renders_reports_each_pair() {
    let same = svg_of("M0,0 L1,1z");
    let differing = svg_of("M0,0 L2,2z");
    let renders = vec![(same.clone(), same.clone()), (same.clone(), differing)];
    let verdicts = judge_renders("ic", &renders).unwrap();
    assert_eq!(verdicts, vec![true, false]);
    assert_eq!(bad_count(&verdicts), 1);
}

#[test]
fn identical_builds_report_zero_defects() {
    // two identical font models: same icons, same axes, same renderings
    let icons = canonical_icon_set(vec![
        Icon::new(vec!["home".to_string()], vec![0xE900]),
        Icon::new(vec!["zoom".to_string()], vec![0xE901]),
    ]);
    let other = canonical_icon_set(vec![
        Icon::new(vec!["zoom".to_string()], vec![0xE901]),
        Icon::new(vec!["home".to_string()], vec![0xE900]),
    ]);
    let rec = reconcile(&icons, &other);
    assert!(rec.only_left.is_empty() && rec.only_right.is_empty());
    let svg = svg_of("M0,0 L1,1z");
    let mut bad_totals = Vec::new();
    for _icon in &rec.common {
        let verdicts = judge_renders("ic", &vec![(svg.clone(), svg.clone())]).unwrap();
        bad_totals.push(bad_count(&verdicts));
    }
    let defects = count_defects(rec.only_left.len(), rec.only_right.len(), &bad_totals);
    assert_eq!(defects, 0);
    assert!(run_succeeds(defects));
}

#[test]
fn icon_missing_on_one_side_is_reported() {
    // font A defines "home" with codepoint 0xE900, font B omits it
    let left = canonical_icon_set(vec![Icon::new(vec!["home".to_string()], vec![0xE900])]);
    let right = canonical_icon_set(Vec::new());
    let rec = reconcile(&left, &right);
    assert_eq!(rec.only_left.len(), 1);
    assert_eq!(
        icondiff::driver::problem_line("only_left", &rec.only_left[0]),
        "only_left home"
    );
    let defects = count_defects(rec.only_left.len(), rec.only_right.len(), &Vec::new());
    assert!(defects >= 1);
    assert!(!run_succeeds(defects));
}

#[test]
fn mismatch_writes_artifacts_at_a_deterministic_ordinal() {
    // a subpath missing one segment on one side: judged non-equivalent and
    // both sides' artifacts are keyed by the position in the bad list
    let left = svg_of("M0,0 L1,0 L1,1z");
    let right = svg_of("M0,0 L1,0z");
    let verdicts = judge_renders("home", &vec![(left.clone(), right.clone())]).unwrap();
    assert_eq!(verdicts, vec![false]);
    let nth = 0;
    assert_eq!(artifact_key("home", "left", nth), "failure.home.left.0.svg");
    assert_eq!(artifact_key("home", "right", nth), "failure.home.right.0.svg");
    assert!(reformat_svg(&left).is_ok());
    assert!(reformat_svg(&right).is_ok());
}
