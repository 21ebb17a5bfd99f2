use tile_workspace::error::StoreError;
use tile_workspace::order::{compare_bytes, compare_names, Relation};
use tile_workspace::path::{check_segment, PathKey};

fn key(text: &str) -> PathKey {
    PathKey::parse(text).unwrap()
}

#[test]
fn parse_reads_the_names_between_separators() {
    let p = key("a/b/c");
    assert_eq!(p.len(), 3);
    assert_eq!(p.segment(0).as_str(), "a");
    assert_eq!(p.segment(1).as_str(), "b");
    assert_eq!(p.segment(2).as_str(), "c");
    assert!(!p.is_root());
}

#[test]
fn parse_of_the_empty_text_is_the_root() {
    let p = key("");
    assert!(p.is_root());
    assert_eq!(p.len(), 0);
    assert_eq!(p, PathKey::root());
    assert_eq!(p.to_string(), "");
}

#[test]
fn parse_rejects_empty_and_dot_segments() {
    for text in ["a//b", "/a", "a/", "/", "a/./b", "../b", ".", "..", "a/..", "./a", "a/b//"] {
        assert_eq!(PathKey::parse(text), Err(StoreError::InvalidPath), "{}", text);
    }
}

#[test]
fn parse_accepts_names_that_only_look_like_dots() {
    for text in ["...", "a/.b", ".hidden", "a..b/c", "..a", "a b/c d", "tile_1.laz"] {
        let p = key(text);
        assert_eq!(p.to_string(), text);
    }
}

#[test]
fn text_round_trips_through_parse() {
    for text in ["", "a", "a/b", "new_directory/deep/subdir", "x/y/z/w.hmap", "ä/ö/日本"] {
        let p = key(text);
        assert_eq!(p.to_string(), text);
        assert_eq!(key(&p.to_string()), p);
    }
}

#[test]
fn names_keep_their_case() {
    assert_ne!(key("A/b"), key("a/b"));
    assert_eq!(key("A/b").to_string(), "A/b");
}

#[test]
fn join_appends_one_valid_name() {
    let p = key("a/b");
    let q = p.join("c.txt").unwrap();
    assert_eq!(q.to_string(), "a/b/c.txt");
    assert_eq!(p.to_string(), "a/b");
    assert_eq!(PathKey::root().join("x").unwrap(), key("x"));
}

#[test]
fn join_rejects_what_is_no_name() {
    let p = key("a");
    for name in ["", ".", "..", "b/c", "/"] {
        assert_eq!(p.join(name), Err(StoreError::InvalidPath), "{:?}", name);
    }
}

#[test]
fn parent_drops_the_last_name() {
    assert_eq!(key("a/b/c").parent(), Some(key("a/b")));
    assert_eq!(key("a").parent(), Some(PathKey::root()));
    assert_eq!(PathKey::root().parent(), None);
}

#[test]
fn file_name_is_the_last_name() {
    assert_eq!(key("a/b/c.laz").file_name(), Some(String::from("c.laz")));
    assert_eq!(key("a").file_name(), Some(String::from("a")));
    assert_eq!(PathKey::root().file_name(), None);
}

#[test]
fn clone_has_the_same_names() {
    let p = key("a/b");
    let q = p.clone();
    assert_eq!(p, q);
    assert!(p.same(&q));
    assert!(!p.same(&key("a/c")));
}

#[test]
fn compare_orders_name_by_name() {
    assert_eq!(key("a/b").compare(&key("a/b")), Relation::Equal);
    assert_eq!(key("a/b").compare(&key("a/c")), Relation::Less);
    assert_eq!(key("a/c").compare(&key("a/b")), Relation::Greater);
    assert_eq!(key("a").compare(&key("a/b")), Relation::Less);
    assert_eq!(key("a/b").compare(&key("a")), Relation::Greater);
    assert_eq!(PathKey::root().compare(&key("a")), Relation::Less);
    assert_eq!(PathKey::root().compare(&PathKey::root()), Relation::Equal);
    // name by name, not character by character: "a" < "a!" though '/' > '!'
    assert_eq!(key("a/z").compare(&key("a!/b")), Relation::Less);
    assert_eq!(key("b").compare(&key("a/z")), Relation::Greater);
}

#[test]
fn compare_is_a_strict_total_order_on_samples() {
    let texts = ["", "a", "a/b", "a/c", "ab", "b", "B", "a/b/c", "ä"];
    for x in texts {
        for y in texts {
            let xy = key(x).compare(&key(y));
            let yx = key(y).compare(&key(x));
            match xy {
                Relation::Equal => {
                    assert_eq!(x, y);
                    assert_eq!(yx, Relation::Equal);
                }
                Relation::Less => assert_eq!(yx, Relation::Greater),
                Relation::Greater => assert_eq!(yx, Relation::Less),
            }
            for z in texts {
                if xy == Relation::Less && key(y).compare(&key(z)) == Relation::Less {
                    assert_eq!(key(x).compare(&key(z)), Relation::Less);
                }
            }
        }
    }
}

#[test]
fn names_are_ordered_by_their_bytes() {
    let names = ["", "a", "A", "ab", "b", "é", "z", "日本", "a.b", "a-b", "Z"];
    for x in names {
        for y in names {
            let expected = match x.cmp(y) {
                std::cmp::Ordering::Less => Relation::Less,
                std::cmp::Ordering::Equal => Relation::Equal,
                std::cmp::Ordering::Greater => Relation::Greater,
            };
            assert_eq!(compare_names(x, y), expected, "{:?} {:?}", x, y);
        }
    }
}

#[test]
fn bytes_are_ordered_lexicographically() {
    assert_eq!(compare_bytes(&[], &[]), Relation::Equal);
    assert_eq!(compare_bytes(&[], &[0]), Relation::Less);
    assert_eq!(compare_bytes(&[0], &[]), Relation::Greater);
    assert_eq!(compare_bytes(&[1, 2, 3], &[1, 2, 4]), Relation::Less);
    assert_eq!(compare_bytes(&[1, 2, 3], &[1, 2]), Relation::Greater);
    assert_eq!(compare_bytes(&[2], &[1, 255]), Relation::Greater);
    assert_eq!(compare_bytes(&[7, 7], &[7, 7]), Relation::Equal);
}

#[test]
fn check_segment_accepts_names_only() {
    assert!(check_segment("a"));
    assert!(check_segment("..."));
    assert!(check_segment("a.b"));
    assert!(check_segment(".a"));
    assert!(!check_segment(""));
    assert!(!check_segment("."));
    assert!(!check_segment(".."));
    assert!(!check_segment("a/b"));
    assert!(!check_segment("/"));
}

#[test]
fn the_operators_agree_with_compare() {
    let texts = ["", "a", "a/b", "a/c", "ab", "b", "B", "a/b/c", "ä", "a!/b", "a/z"];
    for x in texts {
        for y in texts {
            let expected = match key(x).compare(&key(y)) {
                Relation::Less => std::cmp::Ordering::Less,
                Relation::Equal => std::cmp::Ordering::Equal,
                Relation::Greater => std::cmp::Ordering::Greater,
            };
            assert_eq!(key(x).cmp(&key(y)), expected, "{:?} {:?}", x, y);
            assert_eq!(key(x) == key(y), key(x).same(&key(y)));
        }
    }
    let mut sorted: Vec<PathKey> = texts.iter().map(|t| key(t)).collect();
    sorted.sort();
    let texts_sorted: Vec<String> = sorted.iter().map(|p| p.to_string()).collect();
    assert_eq!(texts_sorted, vec!["", "B", "a", "a/b", "a/b/c", "a/c", "a/z", "a!/b", "ab", "b", "ä"]);
}
