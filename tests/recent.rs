use reskin::recent::{upsert_recent, RecentTheme};

fn entry(name: &str, at: u64) -> RecentTheme {
    RecentTheme { name: name.to_string(), author: "a".to_string(), description: "d".to_string(), installed_at: at }
}

fn ledger_names(v: &[RecentTheme]) -> Vec<String> {
    v.iter().map(|t| t.name.clone()).collect()
}

#[test]
fn five_installs_keep_the_four_newest() {
    let mut ledger = Vec::new();
    for (i, name) in ["A", "B", "C", "D", "E"].iter().enumerate() {
        ledger = upsert_recent(&ledger, entry(name, i as u64));
    }
    assert_eq!(ledger_names(&ledger), vec!["E", "D", "C", "B"]);
    assert_eq!(ledger[0].installed_at, 4);
}

#[test]
fn reinstall_moves_a_theme_to_the_front() {
    let ledger = vec![entry("A", 3), entry("B", 2), entry("C", 1)];
    let ledger = upsert_recent(&ledger, entry("B", 9));
    assert_eq!(ledger_names(&ledger), vec!["B", "A", "C"]);
    assert_eq!(ledger[0].installed_at, 9);
}

#[test]
fn overlong_ledger_is_cut_to_four() {
    let ledger: Vec<RecentTheme> = (0..7).map(|i| entry(&format!("t{}", i), i)).collect();
    let ledger = upsert_recent(&ledger, entry("t3", 99));
    assert_eq!(ledger_names(&ledger), vec!["t3", "t0", "t1", "t2"]);
}
