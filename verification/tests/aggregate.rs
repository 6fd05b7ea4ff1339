use fukuoka_c19::aggregate::build_tables;
use fukuoka_c19::aggregate::CaseRecord;

fn rec(date: &str, age: &str, location: &str) -> CaseRecord {
    CaseRecord {
        date: String::from(date),
        age: String::from(age),
        location: String::from(location),
    }
}

#[test]
fn empty_input_yields_three_empty_tables() {
    let records: Vec<CaseRecord> = Vec::new();
    let (ages, dates, locs) = build_tables(&records);
    assert!(ages.is_empty());
    assert!(dates.is_empty());
    assert!(locs.is_empty());
}

#[test]
fn counts_sum_to_records_with_nonempty_labels() {
    let mut records = Vec::new();
    for _ in 0..120 {
        records.push(rec("2022/04/01", "20代", "北九州市"));
    }
    for _ in 0..30 {
        records.push(rec("2022/04/02", "30代", "北九州市"));
    }
    records.push(rec("2022/04/02", "", "北九州市"));
    let (ages, dates, locs) = build_tables(&records);
    let age_sum: u32 = ages.iter().map(|e| e.count).sum();
    let date_sum: u32 = dates.iter().map(|e| e.count).sum();
    let loc_sum: u32 = locs.iter().map(|e| e.count).sum();
    // one record has an empty age bracket
    assert_eq!(age_sum, 150);
    assert_eq!(date_sum, 151);
    assert_eq!(loc_sum, 151);
}

#[test]
fn dates_ascend_and_keep_only_the_most_recent_fifty() {
    let mut records = Vec::new();
    for day in (1..=60).rev() {
        records.push(rec(&format!("2022/04/{day:02}"), "20代", "福岡市"));
    }
    let (_, dates, _) = build_tables(&records);
    assert_eq!(dates.len(), 50);
    // the ten oldest days were dropped
    assert_eq!(dates[0].label, "2022/04/11");
    assert_eq!(dates[49].label, "2022/04/60");
    for w in dates.windows(2) {
        assert!(w[0].label < w[1].label);
    }
}

#[test]
fn dates_count_every_record_when_nothing_is_dropped() {
    let mut records = Vec::new();
    for day in 1..=3 {
        for _ in 0..day {
            records.push(rec(&format!("2022/04/0{day}"), "20代", "福岡市"));
        }
    }
    let (_, dates, _) = build_tables(&records);
    assert_eq!(dates.len(), 3);
    assert_eq!(dates[0].count, 1);
    assert_eq!(dates[1].count, 2);
    assert_eq!(dates[2].count, 3);
}

#[test]
fn rare_and_unnamed_locations_are_dropped() {
    let mut records = Vec::new();
    for _ in 0..150 {
        records.push(rec("2022/04/01", "20代", "福岡市"));
    }
    for _ in 0..99 {
        records.push(rec("2022/04/01", "20代", "久留米市"));
    }
    for _ in 0..100 {
        records.push(rec("2022/04/01", "20代", "北九州市"));
    }
    for _ in 0..120 {
        records.push(rec("2022/04/01", "20代", ""));
    }
    let (_, _, locs) = build_tables(&records);
    assert_eq!(locs.len(), 2);
    assert_eq!(locs[0].label, "福岡市");
    assert_eq!(locs[0].count, 150);
    assert_eq!(locs[1].label, "北九州市");
    assert_eq!(locs[1].count, 100);
}

#[test]
fn locations_sort_by_descending_count() {
    let mut records = Vec::new();
    for _ in 0..100 {
        records.push(rec("2022/04/01", "20代", "小さい市"));
    }
    for _ in 0..300 {
        records.push(rec("2022/04/01", "20代", "大きい市"));
    }
    for _ in 0..200 {
        records.push(rec("2022/04/01", "20代", "中くらい市"));
    }
    let (_, _, locs) = build_tables(&records);
    let counts: Vec<u32> = locs.iter().map(|e| e.count).collect();
    assert_eq!(counts, vec![300, 200, 100]);
}

#[test]
fn under_ten_bracket_stands_immediately_before_teens() {
    let mut records = Vec::new();
    for age in ["90代", "10代", "50代", "10歳未満", "20代", ""] {
        records.push(rec("2022/04/01", age, "福岡市"));
    }
    let (ages, _, _) = build_tables(&records);
    let labels: Vec<&str> = ages.iter().map(|e| e.label.as_str()).collect();
    assert_eq!(labels, vec!["10歳未満", "10代", "20代", "50代", "90代"]);
    let under = labels.iter().position(|l| *l == "10歳未満").unwrap();
    let teens = labels.iter().position(|l| *l == "10代").unwrap();
    assert_eq!(teens, under + 1);
}

#[test]
fn under_ten_bracket_precedes_teens_in_reversed_input_too() {
    let mut records = Vec::new();
    for age in ["10歳未満", "10代"] {
        records.push(rec("2022/04/01", age, "福岡市"));
    }
    let (ages, _, _) = build_tables(&records);
    assert_eq!(ages[0].label, "10歳未満");
    assert_eq!(ages[1].label, "10代");
}

#[test]
fn age_brackets_count_duplicates_once_per_record() {
    let mut records = Vec::new();
    records.push(rec("2022/04/01", "30代", "福岡市"));
    records.push(rec("2022/04/02", "30代", "糟屋郡"));
    records.push(rec("2022/04/03", "40代", "福岡市"));
    let (ages, _, _) = build_tables(&records);
    assert_eq!(ages.len(), 2);
    assert_eq!(ages[0].label, "30代");
    assert_eq!(ages[0].count, 2);
    assert_eq!(ages[1].label, "40代");
    assert_eq!(ages[1].count, 1);
}
