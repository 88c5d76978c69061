use std::collections::HashSet;

use lcmeta::{
    file_id_of, get_fetched_problems, metadata_file_name, parse_catalog, parse_u16, CatalogError,
    FetchRun, Outcome, Problem, Step,
};

fn problem(id: u16, slug: &str, is_premium: bool) -> Problem {
    Problem { id, slug: slug.to_string(), is_premium }
}

/// Drives a run to its end; `fetch` stands for the request and the write.
/// Returns the ids handed to `fetch`, in order, and the final step.
fn drive(run: &mut FetchRun, mut fetch: impl FnMut(u16, &str) -> Outcome) -> (Vec<u16>, Vec<(usize, usize)>) {
    let mut calls = Vec::new();
    let mut progress = Vec::new();
    loop {
        match run.next_step() {
            Step::Finished { .. } => return (calls, progress),
            Step::SkipPremium { .. } | Step::SkipFetched { .. } => {}
            Step::Fetch { id, slug, .. } => {
                calls.push(id);
                let outcome = fetch(id, &slug);
                run.record_outcome(id, outcome);
                if outcome == Outcome::Written {
                    progress.push((run.fetched_amt, run.target));
                }
            }
        }
    }
}

#[test]
fn test_parse_problem() {
    let res = Problem::new("3540,minimum-time-to-visit-all-houses,1");
    let expected = Problem {
        id: 3540,
        slug: "minimum-time-to-visit-all-houses".into(),
        is_premium: true,
    };
    assert_eq!(res, expected);
}

#[test]
#[should_panic]
fn test_parse_problem_panic() {
    let _ = Problem::new("3540,minimum-time-to-visit-all-houses,2");
}

#[test]
fn test_get_problems_list() {
    let content = "3540,minimum-time-to-visit-all-houses,1\n2,add-two-numbers,0\n1,two-sum,0\n";
    let res = parse_catalog(content).unwrap();
    let expected_last = Problem {
        id: 1,
        slug: "two-sum".into(),
        is_premium: false,
    };
    let last = res.last().unwrap();
    assert_eq!(last, &expected_last);
}

#[test]
fn catalog_errors() {
    assert_eq!(Problem::try_new("3540,minimum-time-to-visit-all-houses,2"), Err(CatalogError::BadPremiumFlag));
    assert_eq!(Problem::try_new("3540,minimum-time-to-visit-all-houses"), Err(CatalogError::MissingField));
    assert_eq!(Problem::try_new("x1,two-sum,0"), Err(CatalogError::BadId));
    assert_eq!(Problem::try_new("70000,two-sum,0"), Err(CatalogError::BadId));
    assert_eq!(Problem::try_new("1,two-sum,0,extra"), Ok(problem(1, "two-sum", false)));
    assert_eq!(parse_catalog("1,two-sum,0\n2,add,3\n3,x"), Err((1, CatalogError::BadPremiumFlag)));
    assert_eq!(parse_catalog(""), Ok(Vec::new()));
    assert_eq!(parse_catalog("1,two-sum,0\r\n").unwrap(), vec![problem(1, "two-sum", false)]);
}

#[test]
fn u16_parsing_follows_from_str() {
    for text in ["0", "65535", "65536", "+7", "+", "", "-1", "007", "12a", "99999999999"] {
        let chars: Vec<char> = text.chars().collect();
        assert_eq!(parse_u16(&chars), text.parse::<u16>().ok(), "parsing {:?}", text);
    }
}

#[test]
fn file_ids_from_paths() {
    assert_eq!(file_id_of("resources/metadata/42.json"), Some(42));
    assert_eq!(file_id_of("7.json"), Some(7));
    assert_eq!(file_id_of("resources/metadata/notes.txt"), None);
    assert_eq!(metadata_file_name(3540), "3540.json");
    assert_eq!(metadata_file_name(0), "0.json");
}

#[test]
fn file_name_round_trip() {
    for id in [0u16, 1, 9, 10, 3540, 65535] {
        let path = format!("resources/metadata/{}", metadata_file_name(id));
        assert_eq!(file_id_of(&path), Some(id));
        let ids = get_fetched_problems(&vec![path]).unwrap();
        assert!(ids.contains(&id));
    }
}

#[test]
fn fetched_set_follows_directory() {
    let mut paths = vec!["resources/metadata/1.json".to_string(), "resources/metadata/3.json".to_string()];
    let ids = get_fetched_problems(&paths).unwrap();
    assert_eq!(ids, HashSet::from([1, 3]));
    paths.push("resources/metadata/5.json".to_string());
    assert_eq!(get_fetched_problems(&paths).unwrap(), HashSet::from([1, 3, 5]));
    paths.remove(0);
    assert_eq!(get_fetched_problems(&paths).unwrap(), HashSet::from([3, 5]));
    paths.push("resources/metadata/readme.md".to_string());
    assert_eq!(get_fetched_problems(&paths), Err(2));
}

#[test]
fn scenario_three_items() {
    let catalog = vec![problem(1, "two-sum", false), problem(2, "premium-problem", true), problem(3, "valid-anagram", false)];
    let mut run = FetchRun::new(catalog, HashSet::from([1]), 2);
    assert!(!run.is_satisfied());
    let mut slugs = Vec::new();
    let (calls, progress) = drive(&mut run, |_, slug| {
        slugs.push(slug.to_string());
        Outcome::Written
    });
    assert_eq!(calls, vec![3]);
    assert_eq!(slugs, vec!["valid-anagram".to_string()]);
    assert_eq!(progress, vec![(1, 2)]);
    assert_eq!(run.premium, HashSet::from([2]));
    assert!(run.fetched.contains(&3));
    assert_eq!(run.fetched_amt, 1);
    assert!(run.done);
}

#[test]
fn satisfied_run_makes_no_call() {
    let catalog = vec![problem(4, "a", false), problem(5, "b", false)];
    let mut run = FetchRun::new(catalog, HashSet::from([1, 2]), 2);
    assert!(run.is_satisfied());
    let (calls, _) = drive(&mut run, |_, _| Outcome::Written);
    assert!(calls.is_empty());
    let mut zero = FetchRun::new(vec![problem(4, "a", false)], HashSet::new(), 0);
    assert!(zero.is_satisfied());
    assert!(drive(&mut zero, |_, _| Outcome::Written).0.is_empty());
}

#[test]
fn premium_never_fetched_and_recorded_once() {
    let catalog = vec![problem(2, "p", true), problem(2, "p", true), problem(6, "q", false)];
    let mut run = FetchRun::new(catalog, HashSet::new(), 5);
    let (calls, _) = drive(&mut run, |_, _| Outcome::Written);
    assert_eq!(calls, vec![6]);
    assert_eq!(run.premium.len(), 1);
    assert!(run.premium.contains(&2));
}

#[test]
fn duplicate_entries_fetched_once() {
    let catalog = vec![problem(8, "dup", false), problem(8, "dup", false), problem(8, "dup", false)];
    let mut run = FetchRun::new(catalog, HashSet::new(), 3);
    let (calls, _) = drive(&mut run, |_, _| Outcome::Written);
    assert_eq!(calls, vec![8]);
    assert_eq!(run.fetched_amt, 1);
}

#[test]
fn failures_are_retried_by_later_entries_only() {
    let catalog = vec![problem(8, "dup", false), problem(8, "dup", false), problem(9, "w", false)];
    let mut run = FetchRun::new(catalog, HashSet::new(), 3);
    let (calls, _) = drive(&mut run, |id, _| if id == 9 { Outcome::WriteFailed } else { Outcome::FetchFailed });
    assert_eq!(calls.len(), 3);
    assert!(run.fetched.is_empty());
    assert_eq!(run.fetched_amt, 0);
}

#[test]
fn run_stops_at_target() {
    let catalog: Vec<Problem> = (10..20).map(|i| problem(i, "s", false)).collect();
    let mut run = FetchRun::new(catalog, HashSet::new(), 3);
    let (calls, progress) = drive(&mut run, |_, _| Outcome::Written);
    assert_eq!(calls.len(), 3);
    assert_eq!(progress, vec![(1, 3), (2, 3), (3, 3)]);
    assert!(run.pos <= 3);
    assert!(matches!(run.next_step(), Step::Finished { fetched_amt: 3, target: 3 }));
}

#[test]
fn run_keeps_every_item() {
    let catalog: Vec<Problem> = (10..30).map(|i| problem(i, "s", false)).collect();
    let run = FetchRun::new(catalog, HashSet::new(), 100);
    let mut ids: Vec<u16> = run.order.iter().map(|p| p.id).collect();
    ids.sort();
    assert_eq!(ids, (10..30).collect::<Vec<u16>>());
}
