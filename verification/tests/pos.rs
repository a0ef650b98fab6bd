use wanna::pos::{after, between, n_between};

fn valid(k: &str) -> bool {
    !k.is_empty() && !k.ends_with('0') && k.bytes().all(|c| c.is_ascii_alphanumeric())
}

#[test]
fn first_key() {
    assert_eq!(between(None, None), "V");
}

#[test]
fn append_is_short() {
    let mut k = between(None, None);
    for _ in 0..1000 {
        let next = between(Some(&k), None);
        assert!(next > k && valid(&next));
        k = next;
    }
    assert!(k.len() <= 20, "{k}");
}

#[test]
fn prepend_repeatedly() {
    let mut k = between(None, None);
    for _ in 0..500 {
        let next = between(None, Some(&k));
        assert!(next < k && valid(&next), "{next} {k}");
        k = next;
    }
}

#[test]
fn insert_between_repeatedly() {
    let a = "V".to_string();
    let mut b = "W".to_string();
    for _ in 0..500 {
        let m = between(Some(&a), Some(&b));
        assert!(a < m && m < b && valid(&m), "{a} {m} {b}");
        b = m;
    }
    let mut a = "V".to_string();
    let b = "W".to_string();
    for _ in 0..500 {
        let m = between(Some(&a), Some(&b));
        assert!(a < m && m < b && valid(&m), "{a} {m} {b}");
        a = m;
    }
}

#[test]
fn edge_cases() {
    for (a, b) in [("1", "2"), ("z", "zz"), ("0V", "1"), ("A", "A1"), ("y", "z"), ("zz", "zzV")] {
        let m = between(Some(a), Some(b));
        assert!(a < m.as_str() && m.as_str() < b && valid(&m), "{a} {m} {b}");
    }
    let m = between(None, Some("01"));
    assert!(m.as_str() < "01" && valid(&m), "{m}");
}

#[test]
fn same_as_typescript() {
    assert_eq!(between(Some("V"), None), "W");
    assert_eq!(between(Some("z"), None), "z1");
    assert_eq!(between(Some("1"), Some("2")), "1V");
    assert_eq!(between(None, Some("01")), "00V");
}

#[test]
fn n_between_is_sorted() {
    let keys = n_between(None, None, 300);
    assert_eq!(keys.len(), 300);
    assert!(keys.windows(2).all(|w| w[0] < w[1]));
    assert!(keys.iter().all(|k| valid(k) && k.len() <= 3));
}

#[test]
fn after_bumps_first_digit_that_is_not_z() {
    assert_eq!(after("Vq"), "W");
    assert_eq!(after("zzA"), "zzB");
    assert_eq!(after(""), "1");
    assert_eq!(after("zz"), "zz1");
    assert_eq!(after("9"), "A");
    assert_eq!(after("Z"), "a");
}

#[test]
fn after_keeps_growth_to_one_digit_per_61() {
    // only an all-`z` key grows
    let mut k = "V".to_string();
    for _ in 0..100 {
        let next = after(&k);
        assert!(next.len() <= k.len() + 1);
        if next.len() == k.len() + 1 {
            assert!(k.bytes().all(|c| c == b'z'));
        }
        k = next;
    }
}

#[test]
fn midpoint_values() {
    assert_eq!(between(None, Some("2")), "1");
    assert_eq!(between(Some("1"), Some("3")), "2");
    assert_eq!(between(Some("A"), Some("A1")), "A0V");
    assert_eq!(between(Some("y"), Some("z")), "yV");
    assert_eq!(between(Some("zz"), Some("zzV")), "zzG");
    assert_eq!(between(Some("1"), Some("21")), "2");
    assert_eq!(between(Some("V0"), Some("W")), "VV");
}

#[test]
fn n_between_zero_and_bounds() {
    assert!(n_between(Some("x"), Some("y"), 0).is_empty());
    let keys = n_between(Some("1"), Some("2"), 5);
    assert_eq!(keys.len(), 5);
    assert!(keys.iter().all(|k| "1" < k.as_str() && k.as_str() < "2" && valid(k)));
    assert_eq!(n_between(None, None, 1), vec!["V".to_string()]);
}
