use salary_prep::encoding::{label_encode, one_hot_encode, EncodingTable};
use salary_prep::error::PrepError;
use salary_prep::features::{company_size_score, remote_work_indicator};
use salary_prep::order::{str_eq, str_lt};
use salary_prep::pipeline::{prepare, TRAIN_DEN, TRAIN_NUM};
use salary_prep::records::{clean, dedupe, normalize_levels, Record};
use salary_prep::split::split;

fn rec(year: u32, title: &str, loc: &str, salary: u64) -> Record {
    Record {
        work_year: year,
        job_title: title.to_string(),
        experience_level: "SE".to_string(),
        company_size: "M".to_string(),
        company_location: loc.to_string(),
        remote_ratio: 100,
        salary_in_usd: Some(salary),
    }
}

fn strings(v: &[&str]) -> Vec<String> {
    v.iter().map(|s| s.to_string()).collect()
}

fn assert_partition(train: &[usize], test: &[usize], n: usize) {
    let mut all: Vec<usize> = train.iter().chain(test.iter()).cloned().collect();
    all.sort();
    assert_eq!(all, (0..n).collect::<Vec<usize>>());
}

#[test]
fn dedupe_keeps_first_of_each_key() {
    let input = vec![rec(2021, "A", "US", 100), rec(2021, "A", "US", 200), rec(2022, "B", "US", 150)];
    let out = dedupe(&input);
    assert_eq!(out.len(), 2);
    assert_eq!(out[0].job_title, "A");
    assert_eq!(out[0].salary_in_usd, Some(100));
    assert_eq!(out[1].job_title, "B");
    assert_eq!(out[1].salary_in_usd, Some(150));
}

#[test]
fn dedupe_twice_is_dedupe_once() {
    let input = vec![
        rec(2021, "A", "US", 1),
        rec(2022, "A", "US", 2),
        rec(2021, "A", "DE", 3),
        rec(2021, "A", "US", 4),
        rec(2022, "A", "US", 5),
    ];
    let once = dedupe(&input);
    let twice = dedupe(&once);
    assert_eq!(once, twice);
    let salaries: Vec<Option<u64>> = once.iter().map(|r| r.salary_in_usd).collect();
    assert_eq!(salaries, vec![Some(1), Some(2), Some(3)]);
}

#[test]
fn dedupe_of_nothing_is_nothing() {
    assert!(dedupe(&[]).is_empty());
}

#[test]
fn normalize_folds_experience_level_only() {
    let mut records = vec![rec(2021, "Data Scientist", "US", 10)];
    records[0].experience_level = "SE".to_string();
    normalize_levels(&mut records);
    assert_eq!(records[0].experience_level, "se");
    assert_eq!(records[0].job_title, "Data Scientist");
}

#[test]
fn clean_folds_and_dedupes() {
    let mut a = rec(2021, "A", "US", 100);
    a.experience_level = "MI".to_string();
    let mut b = rec(2021, "A", "US", 200);
    b.experience_level = "EN".to_string();
    let out = clean(vec![a, b, rec(2022, "B", "US", 150)]);
    assert_eq!(out.len(), 2);
    assert_eq!(out[0].experience_level, "mi");
    assert_eq!(out[0].salary_in_usd, Some(100));
    assert_eq!(out[1].experience_level, "se");
}

#[test]
fn company_size_scores() {
    assert_eq!(company_size_score("S"), 1);
    assert_eq!(company_size_score("M"), 2);
    assert_eq!(company_size_score("L"), 3);
    assert_eq!(company_size_score("X"), 0);
    assert_eq!(company_size_score(""), 0);
    assert_eq!(company_size_score("SM"), 0);
    assert_eq!(company_size_score("s"), 0);
}

#[test]
fn remote_indicator() {
    assert!(remote_work_indicator(100));
    assert!(!remote_work_indicator(50));
    assert!(!remote_work_indicator(0));
}

#[test]
fn one_hot_vectors_follow_sorted_table() {
    let (vectors, table) = one_hot_encode(&strings(&["b", "a", "b", "c"])).unwrap();
    assert_eq!(table.len(), 3);
    assert_eq!(table.category(0).unwrap(), "a");
    assert_eq!(table.category(1).unwrap(), "b");
    assert_eq!(table.category(2).unwrap(), "c");
    assert!(table.category(3).is_none());
    assert_eq!(vectors, vec![vec![0, 1, 0], vec![1, 0, 0], vec![0, 1, 0], vec![0, 0, 1]]);
    for v in &vectors {
        assert_eq!(v.iter().filter(|&&x| x == 1).count(), 1);
        let j = v.iter().position(|&x| x == 1).unwrap();
        assert!(table.category(j).is_some());
    }
}

#[test]
fn one_hot_decodes_to_value() {
    let values = strings(&["Data Engineer", "ML Engineer", "Analyst", "Data Engineer"]);
    let (vectors, table) = one_hot_encode(&values).unwrap();
    for (v, value) in vectors.iter().zip(values.iter()) {
        assert_eq!(v.len(), table.len());
        let j = v.iter().position(|&x| x == 1).unwrap();
        assert_eq!(table.category(j).unwrap(), value);
        assert_eq!(table.index_of(value), Some(j));
    }
}

#[test]
fn one_hot_of_empty_column_fails() {
    assert_eq!(one_hot_encode(&[]).err(), Some(PrepError::EmptyInput));
}

#[test]
fn table_ignores_order_and_repetition() {
    let t1 = EncodingTable::build(&strings(&["z", "y", "z", "x"]));
    let t2 = EncodingTable::build(&strings(&["x", "y", "z"]));
    assert_eq!(t1.len(), t2.len());
    for i in 0..t1.len() {
        assert_eq!(t1.category(i), t2.category(i));
    }
    assert_eq!(t1.index_of("x"), Some(0));
    assert_eq!(t1.index_of("w"), None);
}

#[test]
fn labels_index_the_table() {
    let (labels, table) = label_encode(&strings(&["se", "mi", "en", "se", "ex"]));
    assert_eq!(labels, vec![3, 2, 0, 3, 1]);
    assert_eq!(table.category(2).unwrap(), "mi");
    let (none, empty) = label_encode(&[]);
    assert!(none.is_empty());
    assert_eq!(empty.len(), 0);
}

#[test]
fn text_order_by_scalar_value() {
    assert!(str_lt("B", "a"));
    assert!(!str_lt("a", "B"));
    assert!(str_lt("ab", "abc"));
    assert!(!str_lt("abc", "abc"));
    assert!(str_lt("", "a"));
    assert!(str_eq("abc", "abc"));
    assert!(!str_eq("abc", "abd"));
}

#[test]
fn split_is_deterministic_per_seed() {
    let (train, test) = split(10, 4, 5, 42).unwrap();
    let (train2, test2) = split(10, 4, 5, 42).unwrap();
    assert_eq!(train, train2);
    assert_eq!(test, test2);
    assert_eq!(train.len(), 8);
    assert_eq!(test.len(), 2);
    assert_partition(&train, &test, 10);
    let (other_train, other_test) = split(10, 4, 5, 7).unwrap();
    assert_eq!(other_train.len(), 8);
    assert_eq!(other_test.len(), 2);
    assert_partition(&other_train, &other_test, 10);
}

#[test]
fn split_sizes_follow_floor() {
    let (train, test) = split(7, 4, 5, 1).unwrap();
    assert_eq!(train.len(), 5);
    assert_eq!(test.len(), 2);
    assert_partition(&train, &test, 7);
    let (train, test) = split(3, 1, 1, 1).unwrap();
    assert_eq!(train.len(), 3);
    assert!(test.is_empty());
}

#[test]
fn split_degenerate_cases() {
    let (train, test) = split(0, 4, 5, 3).unwrap();
    assert!(train.is_empty() && test.is_empty());
    let (train, test) = split(6, 0, 5, 3).unwrap();
    assert!(train.is_empty());
    assert_partition(&train, &test, 6);
}

#[test]
fn split_rejects_bad_fraction() {
    assert_eq!(split(10, 6, 5, 42), Err(PrepError::InvalidFraction));
    assert_eq!(split(10, 1, 0, 42), Err(PrepError::InvalidFraction));
}

#[test]
fn prepare_derives_all_features() {
    let mut a = rec(2021, "A", "US", 100);
    a.company_size = "L".to_string();
    a.remote_ratio = 50;
    let records = vec![a, rec(2022, "B", "US", 150), rec(2022, "A", "DE", 120)];
    let p = prepare(records, TRAIN_NUM, TRAIN_DEN, 42).unwrap();
    assert_eq!(p.records.len(), 3);
    assert_eq!(p.title_vectors, vec![vec![1, 0], vec![0, 1], vec![1, 0]]);
    assert_eq!(p.level_labels, vec![0, 0, 0]);
    assert_eq!(p.size_scores, vec![3, 2, 2]);
    assert_eq!(p.remote, vec![false, true, true]);
    assert_eq!(p.train_idxs.len(), 2);
    assert_eq!(p.test_idxs.len(), 1);
    assert_partition(&p.train_idxs, &p.test_idxs, 3);
}

#[test]
fn prepare_reports_errors() {
    assert_eq!(prepare(vec![], 4, 5, 1).err(), Some(PrepError::EmptyInput));
    assert_eq!(prepare(vec![], 6, 5, 1).err(), Some(PrepError::EmptyInput));
    let r = prepare(vec![rec(2021, "A", "US", 1)], 6, 5, 1);
    assert_eq!(r.err(), Some(PrepError::InvalidFraction));
}

#[test]
fn split_reorders_positions() {
    let (train, test) = split(20, 1, 1, 42).unwrap();
    assert!(test.is_empty());
    assert_ne!(train, (0..20).collect::<Vec<usize>>());
    assert_partition(&train, &test, 20);
}
