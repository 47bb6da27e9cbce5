use random_word::Lang;
use random_word::WordDb;

fn db3() -> WordDb {
    WordDb::from_texts(vec![
        "cat\ncar\ndog".to_string(),
        "alpha\nbeta\ngamma".to_string(),
        "x\nyz\nxyzzy".to_string(),
    ])
    .unwrap()
}

#[test]
fn all_is_nonempty_with_nonempty_words() {
    let db = db3();
    for lang in [Lang::Simple, Lang::Full, Lang::Nerd] {
        let words = db.all(lang);
        assert!(!words.is_empty());
        for w in words {
            assert!(!w.is_empty());
        }
    }
}

#[test]
fn all_is_idempotent() {
    let db = db3();
    for lang in [Lang::Simple, Lang::Full, Lang::Nerd] {
        let first = db.all(lang).clone();
        let second = db.all(lang);
        assert_eq!(&first, second);
    }
}

#[test]
fn scenario_length_three() {
    let db = db3();
    let bucket = db.all_len(3, Lang::Simple).unwrap();
    assert_eq!(bucket.len(), 3);
    assert!(bucket.contains(&"cat".to_string()));
    assert!(bucket.contains(&"car".to_string()));
    assert!(bucket.contains(&"dog".to_string()));
}

#[test]
fn scenario_length_four_absent() {
    let db = db3();
    assert!(db.all_len(4, Lang::Simple).is_none());
}

#[test]
fn scenario_prefix_c() {
    let db = db3();
    let bucket = db.all_starts_with('c', Lang::Simple).unwrap();
    assert_eq!(bucket.len(), 2);
    assert!(bucket.contains(&"cat".to_string()));
    assert!(bucket.contains(&"car".to_string()));
}

#[test]
fn scenario_get_prefix_d_is_always_dog() {
    let db = db3();
    for _ in 0..32 {
        let w = db.get_starts_with('d', Lang::Simple).unwrap();
        assert_eq!(w, "dog");
    }
}

#[test]
fn get_returns_a_table_word() {
    let db = db3();
    for lang in [Lang::Simple, Lang::Full, Lang::Nerd] {
        for _ in 0..16 {
            let w = db.get(lang);
            assert!(db.all(lang).contains(w));
        }
    }
}

#[test]
fn get_len_matches_all_len() {
    let db = db3();
    for lang in [Lang::Simple, Lang::Full, Lang::Nerd] {
        for n in 0..12usize {
            match db.all_len(n, lang) {
                Some(bucket) => {
                    let w = db.get_len(n, lang).unwrap();
                    assert_eq!(w.chars().count(), n);
                    assert!(bucket.contains(w));
                },
                None => {
                    assert!(db.get_len(n, lang).is_none());
                },
            }
        }
    }
}

#[test]
fn get_starts_with_matches_all_starts_with() {
    let db = db3();
    for lang in [Lang::Simple, Lang::Full, Lang::Nerd] {
        for c in ['a', 'b', 'c', 'd', 'g', 'x', 'y', 'z', 'q'] {
            match db.all_starts_with(c, lang) {
                Some(bucket) => {
                    let w = db.get_starts_with(c, lang).unwrap();
                    assert_eq!(w.chars().next().unwrap(), c);
                    assert!(bucket.contains(w));
                },
                None => {
                    assert!(db.get_starts_with(c, lang).is_none());
                },
            }
        }
    }
}

#[test]
fn buckets_partition_the_table() {
    let db = db3();
    for lang in [Lang::Simple, Lang::Full, Lang::Nerd] {
        let words = db.all(lang);

        let mut lens: Vec<usize> = words.iter().map(|w| w.chars().count()).collect();
        lens.sort();
        lens.dedup();
        let mut from_len_buckets: Vec<String> = Vec::new();
        for n in &lens {
            let bucket = db.all_len(*n, lang).unwrap();
            for w in bucket {
                assert_eq!(w.chars().count(), *n);
                from_len_buckets.push(w.clone());
            }
        }
        let mut expected: Vec<String> = words.clone();
        expected.sort();
        from_len_buckets.sort();
        assert_eq!(from_len_buckets, expected);

        let mut firsts: Vec<char> = words.iter().map(|w| w.chars().next().unwrap()).collect();
        firsts.sort();
        firsts.dedup();
        let mut from_first_buckets: Vec<String> = Vec::new();
        for c in &firsts {
            let bucket = db.all_starts_with(*c, lang).unwrap();
            for w in bucket {
                assert_eq!(w.chars().next().unwrap(), *c);
                from_first_buckets.push(w.clone());
            }
        }
        from_first_buckets.sort();
        assert_eq!(from_first_buckets, expected);
    }
}

#[test]
fn every_word_is_in_its_buckets() {
    let db = db3();
    for lang in [Lang::Simple, Lang::Full, Lang::Nerd] {
        for w in db.all(lang).clone() {
            let n = w.chars().count();
            let c = w.chars().next().unwrap();
            assert!(db.all_len(n, lang).unwrap().contains(&w));
            assert!(db.all_starts_with(c, lang).unwrap().contains(&w));
        }
    }
}
