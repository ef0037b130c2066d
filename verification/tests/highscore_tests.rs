use snake_sim::highscore::HighScoreList;

fn rank_of(list: &HighScoreList, name: &str) -> Option<usize> {
    for (n, r) in list.ranks.iter() {
        if n == name {
            return Some(*r);
        }
    }
    None
}

fn best_of(list: &HighScoreList, name: &str) -> Option<usize> {
    for (n, s) in list.entries.iter() {
        if n == name {
            return Some(*s);
        }
    }
    None
}

#[test]
fn dense_ranking_shares_ranks_without_gaps() {
    let mut list = HighScoreList::new();
    list.insert(String::from("A"), 50);
    list.insert(String::from("B"), 50);
    list.insert(String::from("C"), 30);
    assert_eq!(rank_of(&list, "A"), Some(1));
    assert_eq!(rank_of(&list, "B"), Some(1));
    assert_eq!(rank_of(&list, "C"), Some(2));
    // the tied pair sits above the lower score in the table
    assert_eq!(list.ranks[2], (String::from("C"), 2));
}

#[test]
fn distinct_scores_rank_consecutively() {
    let mut list = HighScoreList::new();
    list.insert(String::from("A"), 50);
    list.insert(String::from("B"), 40);
    list.insert(String::from("C"), 30);
    assert_eq!(rank_of(&list, "A"), Some(1));
    assert_eq!(rank_of(&list, "B"), Some(2));
    assert_eq!(rank_of(&list, "C"), Some(3));
}

#[test]
fn insert_keeps_the_best_score() {
    let mut list = HighScoreList::new();
    list.insert(String::from("A"), 50);
    list.insert(String::from("A"), 30);
    assert_eq!(best_of(&list, "A"), Some(50));
    assert_eq!(list.entries.len(), 1);
    list.insert(String::from("A"), 60);
    assert_eq!(best_of(&list, "A"), Some(60));
    assert_eq!(list.entries.len(), 1);
}

#[test]
fn rank_table_ignores_insertion_order() {
    let mut a = HighScoreList::new();
    a.insert(String::from("A"), 50);
    a.insert(String::from("B"), 50);
    a.insert(String::from("C"), 30);
    let mut b = HighScoreList::new();
    b.insert(String::from("C"), 10);
    b.insert(String::from("B"), 50);
    b.insert(String::from("A"), 20);
    b.insert(String::from("C"), 30);
    b.insert(String::from("A"), 50);
    for name in ["A", "B", "C"] {
        assert_eq!(best_of(&a, name), best_of(&b, name));
        assert_eq!(rank_of(&a, name), rank_of(&b, name));
    }
}

#[test]
fn document_round_trip_restores_the_table() {
    let mut list = HighScoreList::new();
    list.insert(String::from("A"), 50);
    list.insert(String::from("B"), 50);
    list.insert(String::from("C"), 30);
    let doc = list.to_doc();
    let loaded = HighScoreList::load_doc(&doc);
    for name in ["A", "B", "C"] {
        assert_eq!(best_of(&loaded, name), best_of(&list, name));
        assert_eq!(rank_of(&loaded, name), rank_of(&list, name));
    }
    assert_eq!(loaded.entries.len(), 3);
}

#[test]
fn document_is_a_json_object() {
    let mut list = HighScoreList::new();
    assert_eq!(list.to_doc(), "{}");
    list.insert(String::from("A"), 50);
    assert_eq!(list.to_doc(), "{\"A\":50}");
}

#[test]
fn loading_a_handwritten_document_replays_it() {
    let list = HighScoreList::load_doc("{\"A\":50,\"B\":30}");
    assert_eq!(best_of(&list, "A"), Some(50));
    assert_eq!(best_of(&list, "B"), Some(30));
    assert_eq!(rank_of(&list, "A"), Some(1));
    assert_eq!(rank_of(&list, "B"), Some(2));
}

#[test]
fn a_corrupt_document_loads_as_empty() {
    let list = HighScoreList::load_doc("not json at all");
    assert_eq!(list.entries.len(), 0);
    assert_eq!(list.ranks.len(), 0);
}

#[test]
fn replication_rows_mirror_the_store() {
    let mut list = HighScoreList::new();
    list.insert(String::from("A"), 50);
    list.insert(String::from("B"), 30);
    let rows = list.highscore_rows();
    assert_eq!(rows.len(), 2);
    for (i, row) in rows.iter().enumerate() {
        assert_eq!(row.name, list.entries[i].0);
        assert_eq!(row.score, list.entries[i].1);
    }
    let ranks = list.rank_rows();
    assert_eq!(ranks.len(), 2);
    for (i, row) in ranks.iter().enumerate() {
        assert_eq!(row.position, i);
        assert_eq!(row.rank, list.ranks[i].1);
    }
}

#[test]
fn from_entries_replays_in_order() {
    let list = HighScoreList::from_entries(vec![
        (String::from("A"), 10),
        (String::from("A"), 50),
        (String::from("B"), 30),
        (String::from("A"), 20),
    ]);
    assert_eq!(best_of(&list, "A"), Some(50));
    assert_eq!(best_of(&list, "B"), Some(30));
    assert_eq!(list.entries.len(), 2);
}

#[test]
fn reload_rebuilds_the_same_table() {
    let mut list = HighScoreList::new();
    list.insert(String::from("A"), 50);
    list.insert(String::from("B"), 50);
    list.insert(String::from("C"), 30);
    let loaded = list.reload();
    for name in ["A", "B", "C"] {
        assert_eq!(best_of(&loaded, name), best_of(&list, name));
        assert_eq!(rank_of(&loaded, name), rank_of(&list, name));
    }
    assert_eq!(loaded.entries.len(), 3);
}
