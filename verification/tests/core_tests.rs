use icondiff::axis::{policy_step, stops, tag_value, Axis, FILL_TAG, GRAD_TAG, WGHT_TAG};
use icondiff::driver::{
    bad_count, count_defects, icon_line, problem_line, progress_line, run_succeeds, summary_line,
};
use icondiff::icon::{canonical_icon_set, icon_eq, insert_icon, str_eq, str_le, str_lt, Icon};
use icondiff::location::{constellation, Location};
use icondiff::raster::equivalent_rasters;
use icondiff::reconcile::{reconcile, Reconciled};

fn icon(names: &[&str], codepoints: &[u32]) -> Icon {
    Icon::new(
        names.iter().map(|n| n.to_string()).collect(),
        codepoints.to_vec(),
    )
}

#[test]
fn tag_values_match_constants() {
    assert_eq!(tag_value(b'w', b'g', b'h', b't'), WGHT_TAG);
    assert_eq!(tag_value(b'F', b'I', b'L', b'L'), FILL_TAG);
    assert_eq!(tag_value(b'G', b'R', b'A', b'D'), GRAD_TAG);
}

#[test]
fn policy_steps() {
    assert_eq!(policy_step(FILL_TAG), Some(1));
    assert_eq!(policy_step(GRAD_TAG), Some(25));
    assert_eq!(policy_step(WGHT_TAG), Some(200));
    assert_eq!(policy_step(tag_value(b'x', b'y', b'z', b'w')), None);
}

#[test]
fn raw_stops_walk_then_anchors() {
    // the raw walk: ladder values, then default and max appended unsorted
    assert_eq!(stops(100, 400, 700, 200), vec![100, 300, 500, 700, 400, 700]);
    // min above max: only the anchors
    assert_eq!(stops(10, 5, 5, 25), vec![5, 5]);
}

#[test]
fn wght_stops_scenario() {
    // an axis wght with min=100, default=400, max=700 yields
    // {100,300,500,700,400} sorted and deduplicated
    let axis = Axis { tag: WGHT_TAG, min: 100, default: 400, max: 700 };
    assert_eq!(axis.stops(), vec![100, 300, 400, 500, 700]);
}

#[test]
fn stops_always_hold_default_and_bounds() {
    // default off the step ladder still appears
    let grad = Axis { tag: GRAD_TAG, min: -30, default: 0, max: 40 };
    let s = grad.stops();
    assert_eq!(s, vec![-30, -5, 0, 20, 40]);
    assert!(s.contains(&0));
    assert!(s.contains(&-30));
    assert!(s.contains(&40));
    // strictly ascending, no duplicates
    for w in s.windows(2) {
        assert!(w[0] < w[1]);
    }
}

#[test]
fn unknown_axis_falls_back_to_anchors() {
    let axis = Axis { tag: tag_value(b'S', b'P', b'C', b'E'), min: 1, default: 4, max: 9 };
    assert_eq!(axis.stops(), vec![1, 4, 9]);
}

#[test]
fn degenerate_axis_single_stop() {
    let axis = Axis { tag: WGHT_TAG, min: 400, default: 400, max: 400 };
    assert_eq!(axis.stops(), vec![400]);
}

#[test]
fn fill_axis_steps_by_one() {
    let axis = Axis { tag: FILL_TAG, min: 0, default: 0, max: 1 };
    assert_eq!(axis.stops(), vec![0, 1]);
}

#[test]
fn constellation_size_is_product_of_stop_lists() {
    let axes = vec![
        Axis { tag: FILL_TAG, min: 0, default: 0, max: 1 },
        Axis { tag: WGHT_TAG, min: 100, default: 400, max: 700 },
    ];
    let c = constellation(&axes);
    // 2 FILL stops x 5 wght stops
    assert_eq!(c.len(), 10);
    // no duplicate location
    for i in 0..c.len() {
        for j in (i + 1)..c.len() {
            assert_ne!(c[i].coords, c[j].coords);
        }
    }
    // each location names both axes in axis order with a sampled coordinate
    for loc in &c {
        assert_eq!(loc.coords.len(), 2);
        assert_eq!(loc.coords[0].0, FILL_TAG);
        assert!([0, 1].contains(&loc.coords[0].1));
        assert_eq!(loc.coords[1].0, WGHT_TAG);
        assert!([100, 300, 400, 500, 700].contains(&loc.coords[1].1));
    }
}

#[test]
fn constellation_of_no_axes_is_one_empty_location() {
    let c = constellation(&Vec::new());
    assert_eq!(c.len(), 1);
    assert!(c[0].coords.is_empty());
}

#[test]
fn string_order() {
    assert!(str_lt("abc", "abd"));
    assert!(str_le("abc", "abc"));
    assert!(!str_lt("abc", "abc"));
    assert!(str_lt("ab", "abc"));
    assert!(!str_le("b", "azz"));
    assert!(str_eq("home", "home"));
    assert!(!str_eq("home", "hom"));
}

#[test]
fn icon_canonicalizes_names_and_codepoints() {
    let i = icon(&["zoom", "home", "home"], &[0xE902, 0xE900, 0xE900]);
    assert_eq!(i.names, vec!["home".to_string(), "zoom".to_string()]);
    assert_eq!(i.codepoints, vec![0xE900, 0xE902]);
    assert_eq!(i.key(), "home,zoom");
}

#[test]
fn icon_equality_is_by_content() {
    let a = icon(&["b", "a"], &[2, 1]);
    let b = icon(&["a", "b"], &[1, 2]);
    assert!(icon_eq(&a, &b));
    let c = icon(&["a", "b"], &[1, 3]);
    assert!(!icon_eq(&a, &c));
    let d = icon(&["a"], &[1, 2]);
    assert!(!icon_eq(&a, &d));
}

#[test]
fn icon_sets_sort_by_key_and_deduplicate() {
    let set = canonical_icon_set(vec![
        icon(&["zoom"], &[3]),
        icon(&["home"], &[1]),
        icon(&["zoom"], &[3]),
        icon(&["menu"], &[2]),
    ]);
    let keys: Vec<String> = set.iter().map(|i| i.key()).collect();
    assert_eq!(keys, vec!["home", "menu", "zoom"]);
}

#[test]
fn insert_icon_keeps_distinct_identities_with_equal_keys() {
    let set = canonical_icon_set(vec![icon(&["home"], &[1])]);
    let set = insert_icon(set, icon(&["home"], &[2]));
    assert_eq!(set.len(), 2);
    let set = insert_icon(set, icon(&["home"], &[1]));
    assert_eq!(set.len(), 2);
}

#[test]
fn reconcile_partitions_icon_sets() {
    let left = canonical_icon_set(vec![
        icon(&["home"], &[1]),
        icon(&["menu"], &[2]),
    ]);
    let right = canonical_icon_set(vec![
        icon(&["menu"], &[2]),
        icon(&["zoom"], &[3]),
    ]);
    let Reconciled { only_left, only_right, common } = reconcile(&left, &right);
    assert_eq!(only_left.len(), 1);
    assert_eq!(only_left[0].key(), "home");
    assert_eq!(only_right.len(), 1);
    assert_eq!(only_right[0].key(), "zoom");
    assert_eq!(common.len(), 1);
    assert_eq!(common[0].key(), "menu");
}

#[test]
fn reconcile_identical_sides_has_no_defects() {
    let left = canonical_icon_set(vec![icon(&["home"], &[1]), icon(&["menu"], &[2])]);
    let right = canonical_icon_set(vec![icon(&["menu"], &[2]), icon(&["home"], &[1])]);
    let r = reconcile(&left, &right);
    assert!(r.only_left.is_empty());
    assert!(r.only_right.is_empty());
    assert_eq!(r.common.len(), 2);
}

#[test]
fn reconcile_locations() {
    let l1 = Location { coords: vec![(WGHT_TAG, 100)] };
    let l2 = Location { coords: vec![(WGHT_TAG, 400)] };
    let l3 = Location { coords: vec![(WGHT_TAG, 700)] };
    let left = vec![l1.dup(), l2.dup()];
    let right = vec![l2.dup(), l3.dup()];
    let r = reconcile(&left, &right);
    assert_eq!(r.only_left.len(), 1);
    assert_eq!(r.only_left[0].coords, vec![(WGHT_TAG, 100)]);
    assert_eq!(r.only_right.len(), 1);
    assert_eq!(r.only_right[0].coords, vec![(WGHT_TAG, 700)]);
    assert_eq!(r.common.len(), 1);
    assert_eq!(r.common[0].coords, vec![(WGHT_TAG, 400)]);
}

#[test]
fn raster_equivalence_is_exact() {
    let a = vec![1u8, 2, 3, 4];
    let b = vec![1u8, 2, 3, 4];
    assert!(equivalent_rasters(&a, &b));
    let c = vec![1u8, 2, 9, 4];
    assert!(!equivalent_rasters(&a, &c));
    let d = vec![1u8, 2, 3];
    assert!(!equivalent_rasters(&a, &d));
    assert!(equivalent_rasters(&Vec::new(), &Vec::new()));
}

#[test]
fn report_lines() {
    assert_eq!(progress_line(3, 12), "Testing 3 icons at 12 locations...");
    assert_eq!(icon_line("home", 0, 5), "home passes");
    assert_eq!(icon_line("home", 2, 5), "home fails at 2/5 locations");
    assert_eq!(summary_line(4), "Eeek, 4 failures!");
    let i = icon(&["zoom", "home"], &[1]);
    assert_eq!(problem_line("only_left", &i), "only_left home,zoom");
}

#[test]
fn defect_counting_and_exit() {
    assert_eq!(bad_count(&vec![true, false, true, false, false]), 3);
    assert_eq!(bad_count(&Vec::new()), 0);
    assert_eq!(count_defects(1, 2, &vec![0, 3, 1]), 7);
    assert!(run_succeeds(0));
    assert!(!run_succeeds(7));
}
