use pulse::compactor::Entry;
use pulse::erase::{
    answer, aside_dir, check_request, data_files, partitions, product_dir, total_deleted, Action, EraseParams,
    Rewrite,
};

#[test]
fn requests_name_a_user_and_a_product() {
    let params = |product: &str| EraseParams {
        product: product.to_string(),
    };
    assert!(check_request("gone", &params("demo")).is_ok());
    for (user, product) in [("", "demo"), (" \t", "demo"), ("gone", ""), ("gone", "  ")] {
        let failure = check_request(user, &params(product)).err().unwrap();
        assert_eq!(failure.status, 400);
        assert_eq!(failure.message, "user_id and product are required");
    }
}

#[test]
fn answers_to_erasure() {
    assert_eq!(answer(Some(2)).ok(), Some(2));
    let failure = answer(None).err().unwrap();
    assert_eq!(failure.status, 500);
    assert_eq!(failure.message, "internal error");
}

#[test]
fn partitions_are_found() {
    let entry = |name: Option<&str>, is_dir: bool| Entry {
        name: name.map(|s| s.to_string()),
        is_dir,
    };
    let entries = [
        entry(Some("date=2026-06-01"), true),
        entry(Some("date=2026-06-02"), false),
        entry(Some("other"), true),
        entry(None, true),
        entry(Some("date="), true),
    ];
    assert_eq!(partitions(&entries), vec![0, 4]);
    assert_eq!(product_dir("demo"), "product=demo");
}

#[test]
fn directories_aside_are_named_as_std_does() {
    for name in ["date=2026-06-01", "date=2026-06-01.rewrite", "date=a.b.c", "date=."] {
        let want = std::path::Path::new(name).with_extension("rewrite");
        assert_eq!(aside_dir(name), want.to_str().unwrap());
    }
}

#[test]
fn data_files_are_told_by_their_extension() {
    let extensions: Vec<Option<String>> = [Some("parquet"), None, Some("tmp"), Some("parquet"), Some("Parquet")]
        .iter()
        .map(|e| e.map(|s| s.to_string()))
        .collect();
    assert_eq!(data_files(&extensions), vec![0, 3]);
}

#[test]
fn deleted_rows_are_added_up() {
    assert_eq!(total_deleted(&[]), 0);
    assert_eq!(total_deleted(&[1, 0, 2]), 3);
    assert_eq!(total_deleted(&[u64::MAX - 1, 1]), u64::MAX);
}

fn actions(total: u64, kept: u64, old: usize, new: usize) -> Vec<Action> {
    let mut seen = Vec::new();
    let mut r = Rewrite::new(total, kept);
    while r.action() != Action::Done {
        seen.push(r.action());
        let listed = match r.action() {
            Action::ListOld => old,
            Action::ListNew => new,
            _ => 0,
        };
        r = r.step(listed);
    }
    assert_eq!(r.deleted(), total - kept);
    seen
}

#[test]
fn partitions_without_the_user_are_left_alone() {
    assert!(actions(3, 3, 2, 1).is_empty());
    assert!(actions(0, 0, 0, 0).is_empty());
}

#[test]
fn rows_that_stay_are_written_before_any_file_is_removed() {
    assert_eq!(
        actions(3, 1, 2, 1),
        vec![
            Action::ClearAside,
            Action::CreateAside,
            Action::WriteAside,
            Action::ListOld,
            Action::RemoveOld { file: 0, of: 2 },
            Action::RemoveOld { file: 1, of: 2 },
            Action::ListNew,
            Action::MoveNew { file: 0, of: 1 },
            Action::RemoveAside,
        ]
    );
}

#[test]
fn partitions_of_the_user_alone_are_removed() {
    assert_eq!(
        actions(2, 0, 1, 0),
        vec![
            Action::ClearAside,
            Action::ListOld,
            Action::RemoveOld { file: 0, of: 1 },
            Action::RemovePartition,
        ]
    );
}
