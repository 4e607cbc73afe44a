use docsearch::error::Error;
use docsearch::store::RecordStore;

#[test]
fn identifiers_count_up_from_zero() {
    let mut store = RecordStore::new();
    assert_eq!(store.count(), 0);
    assert_eq!(store.dimension(), None);
    assert_eq!(store.append(vec![1, 2, 3], "one".to_string()), Ok(0));
    assert_eq!(store.append(vec![4, 5, 6], "two".to_string()), Ok(1));
    assert_eq!(store.append(vec![7, 8, 9], "three".to_string()), Ok(2));
    assert_eq!(store.count(), 3);
    assert_eq!(store.dimension(), Some(3));
}

#[test]
fn records_are_read_back() {
    let mut store = RecordStore::new();
    store.append(vec![1, 2], "one".to_string()).unwrap();
    store.append(vec![3, 4], "two".to_string()).unwrap();
    let (vector, text) = store.get(1).unwrap();
    assert_eq!(vector, &vec![3, 4]);
    assert_eq!(text, "two");
    let (vector, text) = store.get(0).unwrap();
    assert_eq!(vector, &vec![1, 2]);
    assert_eq!(text, "one");
    assert_eq!(store.vectors(), vec![vec![1, 2], vec![3, 4]]);
}

#[test]
fn unknown_identifier_is_not_found() {
    let mut store = RecordStore::new();
    assert_eq!(store.get(0).err(), Some(Error::NotFound));
    store.append(vec![1], "one".to_string()).unwrap();
    assert!(store.get(0).is_ok());
    assert_eq!(store.get(1).err(), Some(Error::NotFound));
    assert_eq!(store.get(usize::MAX).err(), Some(Error::NotFound));
}

#[test]
fn first_record_fixes_the_dimension() {
    let mut store = RecordStore::new();
    assert_eq!(store.append(vec![1, 2], "one".to_string()), Ok(0));
    assert_eq!(store.append(vec![1, 2, 3], "long".to_string()), Err(Error::DimensionMismatch));
    assert_eq!(store.append(vec![], "empty".to_string()), Err(Error::DimensionMismatch));
    assert_eq!(store.count(), 1);
    assert_eq!(store.append(vec![5, 6], "two".to_string()), Ok(1));
}

#[test]
fn empty_vectors_are_a_dimension_too() {
    let mut store = RecordStore::new();
    assert_eq!(store.append(vec![], "none".to_string()), Ok(0));
    assert_eq!(store.dimension(), Some(0));
    assert_eq!(store.append(vec![1], "one".to_string()), Err(Error::DimensionMismatch));
}
