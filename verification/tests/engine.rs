use scheduler_maker::generate::{combination_overlaps, generate, Combination};
use scheduler_maker::grouping::group_by_name;
use scheduler_maker::build_schedules;
use scheduler_maker::section::{overlaps, Section, TimeSlot, Weekday};

fn slot(weekday: Weekday, sh: u32, sm: u32, eh: u32, em: u32) -> TimeSlot {
    TimeSlot { weekday, start_sec: sh * 3600 + sm * 60, end_sec: eh * 3600 + em * 60 }
}

fn sec(name: &str, id: &str, slots: Vec<TimeSlot>) -> Section {
    Section {
        name: name.to_string(),
        id: id.to_string(),
        instructor: "staff".to_string(),
        slots,
    }
}

fn ids(c: &Combination) -> Vec<String> {
    c.sections.iter().map(|s| s.id.clone()).collect()
}

fn result_ids(out: &Vec<Combination>) -> Vec<Vec<String>> {
    out.iter().map(ids).collect()
}

#[test]
fn overlap_is_symmetric() {
    let a = sec("Math", "A", vec![slot(Weekday::Mon, 9, 0, 10, 0)]);
    let b = sec("Phys", "B", vec![slot(Weekday::Mon, 9, 30, 10, 30)]);
    let c = sec("Chem", "C", vec![slot(Weekday::Mon, 11, 0, 12, 0)]);
    assert!(overlaps(&a, &b));
    assert!(overlaps(&b, &a));
    assert!(!overlaps(&a, &c));
    assert!(!overlaps(&c, &a));
}

#[test]
fn touching_endpoints_do_not_overlap() {
    let a = sec("Math", "A", vec![slot(Weekday::Mon, 9, 0, 10, 0)]);
    let c = sec("Phys", "C", vec![slot(Weekday::Mon, 10, 0, 11, 0)]);
    assert!(!overlaps(&a, &c));
    assert!(!overlaps(&c, &a));
}

#[test]
fn different_weekdays_never_overlap() {
    let a = sec("Math", "A", vec![slot(Weekday::Mon, 9, 0, 10, 0)]);
    let b = sec("Phys", "B", vec![slot(Weekday::Tue, 9, 0, 10, 0)]);
    assert!(!overlaps(&a, &b));
}

#[test]
fn overlap_found_on_later_slots() {
    let a = sec(
        "Math",
        "A",
        vec![slot(Weekday::Mon, 9, 0, 10, 0), slot(Weekday::Wed, 14, 0, 15, 0)],
    );
    let b = sec(
        "Phys",
        "B",
        vec![slot(Weekday::Tue, 9, 0, 10, 0), slot(Weekday::Wed, 14, 30, 15, 30)],
    );
    assert!(overlaps(&a, &b));
}

#[test]
fn combination_overlap_checks_all_members() {
    let a = sec("Math", "A", vec![slot(Weekday::Mon, 9, 0, 10, 0)]);
    let b = sec("Phys", "B", vec![slot(Weekday::Tue, 9, 0, 10, 0)]);
    let clash = sec("Chem", "X", vec![slot(Weekday::Tue, 9, 30, 10, 30)]);
    let free = sec("Chem", "Y", vec![slot(Weekday::Fri, 9, 0, 10, 0)]);
    let combo = Combination { sections: vec![a, b] };
    assert!(combination_overlaps(&combo, &clash));
    assert!(!combination_overlaps(&combo, &free));
}

#[test]
fn grouping_collects_same_name_in_input_order() {
    let sections = vec![
        sec("Math", "M1", vec![slot(Weekday::Mon, 9, 0, 10, 0)]),
        sec("Phys", "P1", vec![slot(Weekday::Tue, 9, 0, 10, 0)]),
        sec("Math", "M2", vec![slot(Weekday::Wed, 9, 0, 10, 0)]),
    ];
    let groups = group_by_name(&sections);
    assert_eq!(groups.len(), 2);
    assert_eq!(groups[0].name, "Math");
    assert_eq!(groups[0].sections.len(), 2);
    assert_eq!(groups[0].sections[0].id, "M1");
    assert_eq!(groups[0].sections[1].id, "M2");
    assert_eq!(groups[1].name, "Phys");
    assert_eq!(groups[1].sections.len(), 1);
    assert_eq!(groups[1].sections[0].id, "P1");
}

#[test]
fn grouping_of_empty_input_is_empty() {
    let sections: Vec<Section> = Vec::new();
    let groups = group_by_name(&sections);
    assert_eq!(groups.len(), 0);
}

#[test]
fn empty_input_yields_only_the_empty_combination() {
    let sections: Vec<Section> = Vec::new();
    let out = build_schedules(&sections);
    assert_eq!(out.len(), 1);
    assert_eq!(out[0].sections.len(), 0);
}

#[test]
fn generate_records_empty_combination_first() {
    let sections = vec![sec("Math", "A", vec![slot(Weekday::Mon, 9, 0, 10, 0)])];
    let groups = group_by_name(&sections);
    let out = generate(&groups);
    assert_eq!(result_ids(&out), vec![Vec::<String>::new(), vec!["A".to_string()]]);
}

#[test]
fn one_group_overlapping_sections_stay_alternatives() {
    let a = sec("Math", "A", vec![slot(Weekday::Mon, 9, 0, 10, 0)]);
    let b = sec("Math", "B", vec![slot(Weekday::Mon, 9, 30, 10, 30)]);
    let out = build_schedules(&vec![a, b]);
    let got = result_ids(&out);
    assert!(got.contains(&Vec::<String>::new()));
    assert!(got.contains(&vec!["A".to_string()]));
    assert!(got.contains(&vec!["B".to_string()]));
    for combo in &got {
        assert!(combo.len() < 2);
    }
    assert_eq!(
        got,
        vec![vec!["A".to_string()], vec!["B".to_string()], Vec::<String>::new()]
    );
}

#[test]
fn touching_sections_combine_and_rank_first() {
    let a = sec("Math", "A", vec![slot(Weekday::Mon, 9, 0, 10, 0)]);
    let c = sec("Phys", "C", vec![slot(Weekday::Mon, 10, 0, 11, 0)]);
    let out = build_schedules(&vec![a, c]);
    let got = result_ids(&out);
    assert!(got.contains(&vec!["A".to_string(), "C".to_string()]));
    assert_eq!(out[0].sections.len(), 2);
    assert_eq!(
        got,
        vec![
            vec!["A".to_string(), "C".to_string()],
            vec!["A".to_string()],
            vec!["C".to_string()],
            Vec::<String>::new(),
            Vec::<String>::new(),
        ]
    );
}

#[test]
fn conflicting_groups_never_combine() {
    let a = sec("Math", "A", vec![slot(Weekday::Mon, 9, 0, 10, 0)]);
    let d = sec("Phys", "D", vec![slot(Weekday::Mon, 9, 30, 10, 30)]);
    let out = build_schedules(&vec![a, d]);
    let got = result_ids(&out);
    assert!(got.contains(&vec!["A".to_string()]));
    assert!(got.contains(&vec!["D".to_string()]));
    assert!(got.contains(&Vec::<String>::new()));
    for combo in &got {
        assert!(!(combo.contains(&"A".to_string()) && combo.contains(&"D".to_string())));
    }
}

#[test]
fn three_free_groups_give_one_full_schedule_ranked_first() {
    let a = sec("Math", "A", vec![slot(Weekday::Mon, 9, 0, 10, 0)]);
    let b = sec("Phys", "B", vec![slot(Weekday::Tue, 9, 0, 10, 0)]);
    let c = sec("Chem", "C", vec![slot(Weekday::Wed, 9, 0, 10, 0)]);
    let out = build_schedules(&vec![a, b, c]);
    assert_eq!(out[0].sections.len(), 3);
    let full: Vec<&Combination> = out.iter().filter(|c| c.sections.len() == 3).collect();
    assert_eq!(full.len(), 1);
    assert_eq!(ids(full[0]), vec!["A".to_string(), "B".to_string(), "C".to_string()]);
}

#[test]
fn ranking_is_non_increasing() {
    let sections = vec![
        sec("Math", "M1", vec![slot(Weekday::Mon, 9, 0, 10, 0)]),
        sec("Math", "M2", vec![slot(Weekday::Mon, 9, 30, 10, 30)]),
        sec("Phys", "P1", vec![slot(Weekday::Mon, 10, 0, 11, 0)]),
        sec("Chem", "C1", vec![slot(Weekday::Tue, 9, 0, 10, 0)]),
    ];
    let out = build_schedules(&sections);
    for w in out.windows(2) {
        assert!(w[0].sections.len() >= w[1].sections.len());
    }
}

#[test]
fn soundness_holds_on_a_crowded_input() {
    let sections = vec![
        sec("Math", "M1", vec![slot(Weekday::Mon, 9, 0, 10, 0)]),
        sec("Math", "M2", vec![slot(Weekday::Tue, 9, 0, 10, 0)]),
        sec("Phys", "P1", vec![slot(Weekday::Mon, 9, 30, 10, 30)]),
        sec("Phys", "P2", vec![slot(Weekday::Tue, 9, 30, 10, 30)]),
        sec("Chem", "C1", vec![slot(Weekday::Mon, 9, 0, 11, 0)]),
    ];
    let out = build_schedules(&sections);
    for combo in &out {
        for k in 0..combo.sections.len() {
            for l in (k + 1)..combo.sections.len() {
                assert!(!overlaps(&combo.sections[k], &combo.sections[l]));
                assert_ne!(combo.sections[k].name, combo.sections[l].name);
            }
        }
    }
}

#[test]
fn repeated_runs_return_identical_sequences() {
    let sections = vec![
        sec("Math", "M1", vec![slot(Weekday::Mon, 9, 0, 10, 0)]),
        sec("Math", "M2", vec![slot(Weekday::Mon, 9, 30, 10, 30)]),
        sec("Phys", "P1", vec![slot(Weekday::Tue, 9, 0, 10, 0)]),
    ];
    let first = build_schedules(&sections);
    let second = build_schedules(&sections);
    assert_eq!(result_ids(&first), result_ids(&second));
}

#[test]
fn sections_carry_their_metadata_through() {
    let mut a = sec("Math", "A", vec![slot(Weekday::Mon, 9, 0, 10, 0)]);
    a.instructor = "Dr. Vector".to_string();
    let out = build_schedules(&vec![a]);
    let with_a: Vec<&Combination> = out.iter().filter(|c| c.sections.len() == 1).collect();
    assert_eq!(with_a.len(), 1);
    assert_eq!(with_a[0].sections[0].name, "Math");
    assert_eq!(with_a[0].sections[0].id, "A");
    assert_eq!(with_a[0].sections[0].instructor, "Dr. Vector");
    assert_eq!(with_a[0].sections[0].slots.len(), 1);
    assert_eq!(with_a[0].sections[0].slots[0].start_sec, 9 * 3600);
    assert_eq!(with_a[0].sections[0].slots[0].end_sec, 10 * 3600);
}
