use keyed_loader::group::group_rows_by_key;
use keyed_loader::record::Question;
use keyed_loader::value_map::ValueMap;

fn mk_question(id: u128, band_id: u128) -> Question {
    Question {
        id,
        content: format!("question {}", id),
        correct_answer_id: id + 1000,
        band_id,
        created_at: 0,
        updated_at: 0,
    }
}

#[test]
fn grouping_splits_rows_by_band_and_keeps_order() {
    let rows = vec![
        mk_question(1, 10),
        mk_question(2, 20),
        mk_question(3, 10),
        mk_question(4, 20),
        mk_question(5, 10),
    ];
    let m = group_rows_by_key(&rows);
    let band10 = m.get(10).expect("band 10 has rows");
    assert_eq!(band10.len(), 3);
    assert_eq!(band10[0].id, 1);
    assert_eq!(band10[1].id, 3);
    assert_eq!(band10[2].id, 5);
    let band20 = m.get(20).expect("band 20 has rows");
    assert_eq!(band20.len(), 2);
    assert_eq!(band20[0].id, 2);
    assert_eq!(band20[1].id, 4);
}

#[test]
fn grouping_leaves_rowless_keys_absent() {
    let rows = vec![mk_question(1, 10)];
    let m = group_rows_by_key(&rows);
    assert!(m.contains_key(10));
    assert!(!m.contains_key(11));
    assert!(m.get(11).is_none());
}

#[test]
fn grouping_no_rows_gives_an_empty_mapping() {
    let rows: Vec<Question> = Vec::new();
    let m = group_rows_by_key(&rows);
    assert!(!m.contains_key(0));
    assert!(!m.contains_key(10));
}

#[test]
fn value_map_insert_replaces_and_get_finds() {
    let mut m = ValueMap::new();
    assert!(!m.contains_key(1));
    m.insert(1, vec![mk_question(1, 1)]);
    m.insert(2, vec![mk_question(2, 2), mk_question(3, 2)]);
    assert_eq!(m.get(1).unwrap().len(), 1);
    assert_eq!(m.get(2).unwrap().len(), 2);
    m.insert(1, Vec::new());
    assert!(m.get(1).unwrap().is_empty());
    assert_eq!(m.get(2).unwrap().len(), 2);
}

#[test]
fn value_map_push_row_appends_per_key() {
    let mut m = ValueMap::new();
    m.push_row(5, mk_question(51, 5));
    m.push_row(6, mk_question(61, 6));
    m.push_row(5, mk_question(52, 5));
    let five = m.get(5).unwrap();
    assert_eq!(five.len(), 2);
    assert_eq!(five[0].id, 51);
    assert_eq!(five[1].id, 52);
    assert_eq!(m.get(6).unwrap().len(), 1);
}
