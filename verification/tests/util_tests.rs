//! Small behaviors of the surrounding tooling: option parsing helpers and
//! the store when it is empty.
use chainquery::store::Store;

#[test]
fn test_fakestore() {
    let x = "a b c d  as asfas ";
    let y: Vec<&str> = x.split(' ').collect();
    println!("{:?}", y);
    let y: Vec<&str> = x.split(' ').filter(|el| !el.is_empty()).collect();
    println!("{:?}", y);
}

#[test]
fn test_opts() {
    let val = None.map(|el: u32| Some(1));
    println!("{:?}", val);
    let val = Some("1000")
        .map(|el| el.parse().unwrap_or(10u32))
        .min(Some(30u32))
        .unwrap();
    println!("{:?}", val);
    let val = None
        .map_or(10u32, |el: &str| el.parse().unwrap_or(10u32))
        .min(30u32);
    println!("{:?}", val);
}

#[test]
fn empty_store_answers_nothing() {
    let store = Store::new();
    assert_eq!(store.get(&vec![1, 2, 3]), None);
    assert_eq!(store.scan(&vec![]).len(), 0);
}
