use knock_knock::errors::JokeBaseErr;
use knock_knock::joke::Joke;
use knock_knock::jokebase::JokeBase;

fn joke(id: &str, tags: Option<Vec<&str>>) -> Joke {
    Joke {
        id: id.to_owned(),
        whos_there: format!("{id} who's there"),
        answer_who: format!("{id} answer"),
        source: Some("test suite".to_owned()),
        tags: tags.map(|ts| ts.into_iter().map(|t| t.to_owned()).collect()),
    }
}

#[test]
fn round_trip_returns_added_record() {
    let mut b = JokeBase::new();
    let j = joke("knock", Some(vec!["pun", "classic"]));
    assert!(b.add(j.clone()).is_ok());
    let got = b.get("knock").expect("added record must be found");
    assert_eq!(got, j);
    assert_eq!(got.tags, Some(vec!["pun".to_owned(), "classic".to_owned()]));
}

#[test]
fn round_trip_without_tags() {
    let mut b = JokeBase::new();
    let j = joke("plain", None);
    assert!(b.add(j.clone()).is_ok());
    let got = b.get("plain").unwrap();
    assert_eq!(got, j);
    assert_eq!(got.tags, None);
}

#[test]
fn duplicate_add_rejected_and_state_unchanged() {
    let mut b = JokeBase::new();
    let first = joke("dup", Some(vec!["one"]));
    assert!(b.add(first.clone()).is_ok());
    let mut second = joke("dup", Some(vec!["two", "three"]));
    second.whos_there = "other".to_owned();
    match b.add(second) {
        Err(JokeBaseErr::JokeExists(id)) => assert_eq!(id, "dup"),
        other => panic!("expected JokeExists, got {other:?}"),
    }
    // the failed call left the store exactly as after the first add
    assert_eq!(b.get("dup").unwrap(), first);
    assert_eq!(b.get_jokes().unwrap().len(), 1);
    assert_eq!(b.tag_row_count(), 1);
}

#[test]
fn empty_store_random_selection_fails_not_found() {
    let b = JokeBase::new();
    for pick in [0usize, 1, 17, usize::MAX] {
        match b.get_random(pick) {
            Err(JokeBaseErr::NoJoke) => {}
            other => panic!("expected NoJoke, got {other:?}"),
        }
    }
}

#[test]
fn random_selection_returns_picked_record() {
    let mut b = JokeBase::new();
    b.add(joke("first", None)).unwrap();
    b.add(joke("second", Some(vec!["t"]))).unwrap();
    b.add(joke("third", None)).unwrap();
    assert_eq!(b.get_random(0).unwrap().id, "first");
    assert_eq!(b.get_random(1).unwrap().id, "second");
    assert_eq!(b.get_random(5).unwrap().id, "third");
}

#[test]
fn delete_cascades_tag_rows() {
    let mut b = JokeBase::new();
    b.add(joke("keep", Some(vec!["kept"]))).unwrap();
    b.add(joke("gone", Some(vec!["a", "b", "c"]))).unwrap();
    assert_eq!(b.tag_row_count(), 4);
    assert!(b.delete("gone").is_ok());
    // the record is gone
    match b.get("gone") {
        Err(JokeBaseErr::JokeDoesNotExist(id)) => assert_eq!(id, "gone"),
        other => panic!("expected JokeDoesNotExist, got {other:?}"),
    }
    // and the tag table shrank by exactly the record's tag count
    assert_eq!(b.tag_row_count(), 1);
    assert_eq!(b.get("keep").unwrap().tags, Some(vec!["kept".to_owned()]));
}

#[test]
fn delete_missing_record_fails_not_found() {
    let mut b = JokeBase::new();
    b.add(joke("present", None)).unwrap();
    match b.delete("absent") {
        Err(JokeBaseErr::JokeDoesNotExist(id)) => assert_eq!(id, "absent"),
        other => panic!("expected JokeDoesNotExist, got {other:?}"),
    }
    assert_eq!(b.get_jokes().unwrap().len(), 1);
}

#[test]
fn update_replaces_tag_set_fully() {
    let mut b = JokeBase::new();
    b.add(joke("knock", Some(vec!["a", "b"]))).unwrap();
    let replacement = joke("knock", Some(vec!["b", "c"]));
    assert!(b.update("knock", replacement.clone()).is_ok());
    let got = b.get("knock").unwrap();
    // exactly {b, c}: b kept, c added, a gone — never {a, b, c}
    assert_eq!(got.tags, Some(vec!["b".to_owned(), "c".to_owned()]));
    assert_eq!(got, replacement);
    assert_eq!(b.tag_row_count(), 2);
}

#[test]
fn update_missing_record_fails_not_found() {
    let mut b = JokeBase::new();
    match b.update("nobody", joke("nobody", None)) {
        Err(JokeBaseErr::JokeDoesNotExist(id)) => assert_eq!(id, "nobody"),
        other => panic!("expected JokeDoesNotExist, got {other:?}"),
    }
    assert!(b.get_jokes().unwrap().is_empty());
}

#[test]
fn failed_update_leaves_state_unchanged() {
    let mut b = JokeBase::new();
    let original = joke("stable", Some(vec!["x", "y"]));
    b.add(original.clone()).unwrap();
    // duplicate tags make the replacement unprocessable mid-operation
    match b.update("stable", joke("stable", Some(vec!["z", "z"]))) {
        Err(JokeBaseErr::JokeUnprocessable(_)) => {}
        other => panic!("expected JokeUnprocessable, got {other:?}"),
    }
    assert_eq!(b.get("stable").unwrap(), original);
    assert_eq!(b.tag_row_count(), 2);
}

#[test]
fn update_with_mismatched_id_is_unprocessable() {
    let mut b = JokeBase::new();
    b.add(joke("one", None)).unwrap();
    match b.update("one", joke("two", None)) {
        Err(JokeBaseErr::JokeUnprocessable(_)) => {}
        other => panic!("expected JokeUnprocessable, got {other:?}"),
    }
    assert_eq!(b.get("one").unwrap(), joke("one", None));
}

#[test]
fn add_rejects_empty_id() {
    let mut b = JokeBase::new();
    match b.add(joke("", None)) {
        Err(JokeBaseErr::JokeUnprocessable(_)) => {}
        other => panic!("expected JokeUnprocessable, got {other:?}"),
    }
    assert!(b.get_jokes().unwrap().is_empty());
    assert_eq!(b.tag_row_count(), 0);
}

#[test]
fn add_rejects_duplicate_tags() {
    let mut b = JokeBase::new();
    match b.add(joke("twice", Some(vec!["same", "same"]))) {
        Err(JokeBaseErr::JokeUnprocessable(_)) => {}
        other => panic!("expected JokeUnprocessable, got {other:?}"),
    }
    assert!(b.get_jokes().unwrap().is_empty());
}

#[test]
fn add_rejects_empty_tag_list() {
    let mut b = JokeBase::new();
    match b.add(joke("hollow", Some(vec![]))) {
        Err(JokeBaseErr::JokeUnprocessable(_)) => {}
        other => panic!("expected JokeUnprocessable, got {other:?}"),
    }
    assert!(b.get_jokes().unwrap().is_empty());
}

#[test]
fn get_missing_record_fails_not_found() {
    let b = JokeBase::new();
    match b.get("nothing") {
        Err(JokeBaseErr::JokeDoesNotExist(id)) => assert_eq!(id, "nothing"),
        other => panic!("expected JokeDoesNotExist, got {other:?}"),
    }
}

#[test]
fn list_empty_store_yields_empty_sequence() {
    let b = JokeBase::new();
    assert_eq!(b.get_jokes().unwrap(), vec![]);
}

#[test]
fn list_returns_all_records_in_insertion_order() {
    let mut b = JokeBase::new();
    let a = joke("alpha", Some(vec!["first"]));
    let c = joke("beta", None);
    let d = joke("gamma", Some(vec!["x", "y"]));
    b.add(a.clone()).unwrap();
    b.add(c.clone()).unwrap();
    b.add(d.clone()).unwrap();
    assert_eq!(b.get_jokes().unwrap(), vec![a, c, d]);
}
