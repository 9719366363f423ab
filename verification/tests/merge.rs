use feiertage::date::Date;
use feiertage::feiertag::{is_sorted_by_date, Feiertag};
use feiertage::lands::{insert_land, is_ascending, union_lands};
use feiertage::merge::{are_sorted, earliest_head, merge, take_heads, try_merge};

fn day(name: &str, year: i32, month: u8, day: u8, lands: &[&str]) -> Feiertag {
    Feiertag {
        name: name.to_string(),
        date: Date { year, month, day },
        lands: lands.iter().map(|l| l.to_string()).collect(),
    }
}

#[test]
fn test_merge() {
    let v1 = vec![
        Feiertag {
            name: "Neujahr".to_string(),
            date: Date { year: 2020, month: 1, day: 1 },
            lands: vec!["HE".to_string()],
        },
        Feiertag {
            name: "Glückstag".to_string(),
            date: Date { year: 2020, month: 2, day: 3 },
            lands: vec!["HE".to_string()],
        },
        Feiertag {
            name: "1. Mai!!!".to_string(),
            date: Date { year: 2020, month: 5, day: 1 },
            lands: vec!["HE".to_string()],
        },
    ];
    let v2 = vec![
        Feiertag {
            name: "Neujahr".to_string(),
            date: Date { year: 2020, month: 1, day: 1 },
            lands: vec!["NRW".to_string()],
        },
        Feiertag {
            name: "Karneval".to_string(),
            date: Date { year: 2020, month: 2, day: 10 },
            lands: vec!["NRW".to_string()],
        },
        Feiertag {
            name: "1. Mai!!!".to_string(),
            date: Date { year: 2020, month: 5, day: 1 },
            lands: vec!["NRW".to_string()],
        },
    ];

    let merged = merge(&[v1, v2]);

    assert_eq!(
        merged,
        vec![
            Feiertag {
                name: "Neujahr".to_string(),
                date: Date { year: 2020, month: 1, day: 1 },
                lands: vec!["HE".to_string(), "NRW".to_string()],
            },
            Feiertag {
                name: "Glückstag".to_string(),
                date: Date { year: 2020, month: 2, day: 3 },
                lands: vec!["HE".to_string()],
            },
            Feiertag {
                name: "Karneval".to_string(),
                date: Date { year: 2020, month: 2, day: 10 },
                lands: vec!["NRW".to_string()],
            },
            Feiertag {
                name: "1. Mai!!!".to_string(),
                date: Date { year: 2020, month: 5, day: 1 },
                lands: vec!["HE".to_string(), "NRW".to_string()],
            },
        ]
    );
}

#[test]
fn merge_of_nothing_is_empty() {
    assert_eq!(merge(&[]), Vec::<Feiertag>::new());
    assert_eq!(merge(&[vec![], vec![]]), Vec::<Feiertag>::new());
}

#[test]
fn merge_of_one_source_is_that_source() {
    let source = vec![
        day("Neujahr", 2020, 1, 1, &["HE"]),
        day("Karfreitag", 2020, 4, 10, &["HE"]),
        day("Weihnachten", 2020, 12, 25, &["HE"]),
    ];
    assert_eq!(merge(&[source.clone()]), source);
}

#[test]
fn merge_output_is_strictly_ascending() {
    let a = vec![day("a1", 2019, 12, 31, &["A"]), day("a2", 2020, 3, 1, &["A"])];
    let b = vec![day("b1", 2020, 1, 1, &["B"]), day("b2", 2020, 3, 1, &["B"])];
    let c = vec![day("c1", 2020, 3, 1, &["C"]), day("c2", 2021, 1, 1, &["C"])];
    let merged = merge(&[a, b, c]);
    let dates: Vec<Date> = merged.iter().map(|d| d.date).collect();
    assert_eq!(
        dates,
        vec![
            Date { year: 2019, month: 12, day: 31 },
            Date { year: 2020, month: 1, day: 1 },
            Date { year: 2020, month: 3, day: 1 },
            Date { year: 2021, month: 1, day: 1 },
        ]
    );
    for pair in merged.windows(2) {
        assert!(pair[0].date < pair[1].date);
    }
}

#[test]
fn merge_unions_regions_of_a_shared_date() {
    let a = vec![day("x", 2020, 3, 1, &["NRW"])];
    let b = vec![day("x", 2020, 3, 1, &["BY"])];
    let c = vec![day("x", 2020, 3, 1, &["HE"]), day("y", 2020, 3, 2, &["HE"])];
    let merged = merge(&[a, b, c]);
    assert_eq!(
        merged,
        vec![day("x", 2020, 3, 1, &["BY", "HE", "NRW"]), day("y", 2020, 3, 2, &["HE"])]
    );
}

#[test]
fn merge_takes_the_name_of_the_first_source() {
    let a = vec![day("later", 2020, 6, 1, &["A"])];
    let b = vec![day("Fronleichnam", 2020, 5, 1, &["B"])];
    let c = vec![day("Tag der Arbeit", 2020, 5, 1, &["C"])];
    let merged = merge(&[a, b, c]);
    assert_eq!(
        merged,
        vec![day("Fronleichnam", 2020, 5, 1, &["B", "C"]), day("later", 2020, 6, 1, &["A"])]
    );
}

#[test]
fn merge_length_is_within_its_bounds() {
    let a = vec![day("a", 2020, 1, 1, &["A"]), day("a", 2020, 1, 2, &["A"])];
    let b = vec![
        day("b", 2020, 1, 2, &["B"]),
        day("b", 2020, 1, 3, &["B"]),
        day("b", 2020, 1, 4, &["B"]),
    ];
    let merged = merge(&[a.clone(), b.clone()]);
    assert_eq!(merged.len(), 4);
    assert!(merged.len() <= a.len() + b.len());
    assert!(merged.len() >= a.len().max(b.len()));
    let c = vec![day("c", 2021, 1, 1, &["C"])];
    assert_eq!(merge(&[a.clone(), c.clone()]).len(), a.len() + c.len());
}

#[test]
fn merge_keeps_region_sets_of_merged_records() {
    let a = vec![day("a", 2020, 1, 1, &["BW", "BY"])];
    let b = vec![day("a", 2020, 1, 1, &["BE", "BY", "HH"])];
    assert_eq!(merge(&[a, b]), vec![day("a", 2020, 1, 1, &["BE", "BW", "BY", "HH"])]);
}

#[test]
fn earliest_head_picks_the_first_of_the_earliest() {
    let a = vec![day("a", 2020, 2, 1, &["A"])];
    let b = vec![day("b", 2020, 1, 1, &["B"])];
    let c = vec![day("c", 2020, 1, 1, &["C"])];
    let inputs = [a, b, c];
    assert_eq!(earliest_head(&inputs, &vec![0, 0, 0]), Some(1));
    assert_eq!(earliest_head(&inputs, &vec![0, 1, 0]), Some(2));
    assert_eq!(earliest_head(&inputs, &vec![0, 1, 1]), Some(0));
    assert_eq!(earliest_head(&inputs, &vec![1, 1, 1]), None);
}

#[test]
fn take_heads_moves_the_matching_cursors() {
    let a = vec![day("a", 2020, 2, 1, &["A"])];
    let b = vec![day("b", 2020, 1, 1, &["B"])];
    let c = vec![day("c", 2020, 1, 1, &["C"])];
    let inputs = [a, b, c];
    let mut pos = vec![0, 0, 0];
    let lands = take_heads(&inputs, &mut pos, &Date { year: 2020, month: 1, day: 1 });
    assert_eq!(pos, vec![0, 1, 1]);
    assert_eq!(lands, vec!["B".to_string(), "C".to_string()]);
}

#[test]
fn insert_land_keeps_the_order_and_drops_repeats() {
    let mut lands: Vec<String> = Vec::new();
    for name in ["NRW", "HE", "BY", "HE", "SH", "BY"] {
        insert_land(&mut lands, &name.to_string());
    }
    assert_eq!(lands, vec!["BY", "HE", "NRW", "SH"]);
}

#[test]
fn union_lands_is_the_sorted_union() {
    let mut lands = vec!["BY".to_string(), "NRW".to_string()];
    union_lands(&mut lands, &vec!["BE".to_string(), "NRW".to_string(), "SL".to_string()]);
    assert_eq!(lands, vec!["BE", "BY", "NRW", "SL"]);
    union_lands(&mut lands, &Vec::new());
    assert_eq!(lands, vec!["BE", "BY", "NRW", "SL"]);
}

#[test]
fn insert_land_orders_by_code_point() {
    let mut lands: Vec<String> = Vec::new();
    for name in ["b", "Ä", "a", "B", "ab", ""] {
        insert_land(&mut lands, &name.to_string());
    }
    assert_eq!(lands, vec!["", "B", "a", "ab", "b", "Ä"]);
}

#[test]
fn new_holiday_has_one_region() {
    let d = Feiertag::new("Neujahr".to_string(), Date { year: 2020, month: 1, day: 1 }, "HE".to_string());
    assert_eq!(d, day("Neujahr", 2020, 1, 1, &["HE"]));
}

#[test]
fn merge_length_is_the_sum_only_without_shared_dates() {
    let a = vec![day("a", 2020, 1, 1, &["A"]), day("a", 2020, 1, 3, &["A"])];
    let b = vec![day("b", 2020, 1, 2, &["B"]), day("b", 2020, 1, 4, &["B"])];
    let c = vec![day("c", 2020, 1, 4, &["C"])];
    assert_eq!(merge(&[a.clone(), b.clone()]).len(), 4);
    assert_eq!(merge(&[a, b, c]).len(), 4);
}

#[test]
fn is_ascending_wants_strict_order() {
    assert!(is_ascending(&vec![]));
    assert!(is_ascending(&vec!["HE".to_string()]));
    assert!(is_ascending(&vec!["BY".to_string(), "HE".to_string(), "NRW".to_string()]));
    assert!(!is_ascending(&vec!["HE".to_string(), "HE".to_string()]));
    assert!(!is_ascending(&vec!["BY".to_string(), "NRW".to_string(), "HE".to_string()]));
}

#[test]
fn holiday_validity() {
    assert!(day("a", 2020, 2, 29, &["BY", "HE"]).is_valid());
    assert!(!day("a", 2019, 2, 29, &["BY", "HE"]).is_valid());
    assert!(!day("a", 2020, 2, 29, &["HE", "BY"]).is_valid());
}

#[test]
fn is_sorted_by_date_wants_strictly_increasing_dates() {
    assert!(is_sorted_by_date(&[]));
    assert!(is_sorted_by_date(&[day("a", 2020, 1, 1, &["A"])]));
    assert!(is_sorted_by_date(&[
        day("a", 2019, 12, 31, &["A"]),
        day("b", 2020, 1, 1, &["A"]),
        day("c", 2020, 1, 2, &["A"]),
    ]));
    assert!(!is_sorted_by_date(&[day("a", 2020, 1, 1, &["A"]), day("b", 2020, 1, 1, &["A"])]));
    assert!(!is_sorted_by_date(&[day("a", 2020, 1, 2, &["A"]), day("b", 2020, 1, 1, &["A"])]));
    assert!(!is_sorted_by_date(&[day("a", 2020, 1, 1, &["A"]), day("b", 2020, 4, 31, &["A"])]));
    assert!(!is_sorted_by_date(&[day("a", 2020, 1, 1, &["B", "A"])]));
}

#[test]
fn try_merge_refuses_an_unsorted_source() {
    let a = vec![day("a", 2020, 1, 2, &["A"]), day("a", 2020, 1, 1, &["A"])];
    let b = vec![day("b", 2020, 1, 1, &["B"])];
    assert!(!are_sorted(&[b.clone(), a.clone()]));
    assert_eq!(try_merge(&[b.clone(), a]), None);
    assert!(are_sorted(&[b.clone(), b.clone()]));
    assert_eq!(try_merge(&[b.clone(), b]), Some(vec![day("b", 2020, 1, 1, &["B"])]));
    let twice = vec![day("x", 2020, 1, 1, &["A"]), day("y", 2020, 1, 1, &["A"])];
    assert_eq!(try_merge(&[twice]), None);
    assert_eq!(try_merge(&[]), Some(vec![]));
}
