use unyeong::text::{insert_sorted, replace_all, str_contains, str_lt};

#[test]
fn containment() {
    assert!(str_contains("samsung nvme", "nvme"));
    assert!(str_contains("abc", ""));
    assert!(!str_contains("", "a"));
    assert!(!str_contains("nvm", "nvme"));
}

#[test]
fn order_matches_std() {
    let words = ["", "a", "ab", "b", "10.0.0.10", "10.0.0.9", "é", "z", "Z"];
    for x in words.iter() {
        for y in words.iter() {
            assert_eq!(str_lt(x, y), x < y, "{} {}", x, y);
        }
    }
}

#[test]
fn sorted_insertion() {
    let mut v: Vec<String> = vec![];
    for s in ["b", "a", "c", "b", "a"] {
        insert_sorted(&mut v, s.to_string());
    }
    assert_eq!(v, vec!["a", "b", "c"]);
}

#[test]
fn replacement_matches_std() {
    let cases = [("aaaa", "aa", "b"), ("xDISK_OSy", "DISK_OS", "/dev/sda"), ("", "a", "b"), ("abc", "d", "e"), ("ééé", "é", "e"), ("ab", "", "x"), ("", "", "y")];
    for (s, f, t) in cases.iter() {
        assert_eq!(replace_all(s, f, t), s.replace(f, t));
    }
}
