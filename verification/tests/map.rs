use art::{Encodable, InsertError, ART};
use std::collections::BTreeMap;

fn text(s: &str) -> String {
    s.to_string()
}

fn next(state: &mut u64) -> u64 {
    *state = state.wrapping_mul(6364136223846793005).wrapping_add(1442695040888963407);
    *state >> 33
}

fn random_key(state: &mut u64, max_len: u64, alphabet: u64) -> Vec<u8> {
    let len = next(state) % (max_len + 1);
    let mut key = Vec::new();
    for _ in 0..len {
        key.push((next(state) % alphabet) as u8);
    }
    key
}

#[test]
fn new_map_holds_nothing() {
    let map: ART<String, u64> = ART::new();
    assert_eq!(map.lookup(&text("")), None);
    assert_eq!(map.lookup(&text("a")), None);
    assert_eq!(map.lookup(&text("abcdefghijklmnop")), None);
}

#[test]
fn keys_that_start_one_another() {
    let mut map: ART<String, u64> = ART::new();
    assert_eq!(map.insert(&text("a"), 1), Ok(()));
    assert_eq!(map.insert(&text("ab"), 2), Ok(()));
    assert_eq!(map.insert(&text("abc"), 3), Ok(()));
    assert_eq!(map.lookup(&text("a")), Some(&1));
    assert_eq!(map.lookup(&text("ab")), Some(&2));
    assert_eq!(map.lookup(&text("abc")), Some(&3));
    assert_eq!(map.lookup(&text("abcd")), None);
    assert_eq!(map.lookup(&text("")), None);
    assert_eq!(map.lookup(&text("b")), None);
}

#[test]
fn keys_that_start_one_another_longest_first() {
    let mut map: ART<String, u64> = ART::new();
    assert_eq!(map.insert(&text("abc"), 3), Ok(()));
    assert_eq!(map.insert(&text("ab"), 2), Ok(()));
    assert_eq!(map.insert(&text("a"), 1), Ok(()));
    assert_eq!(map.insert(&text(""), 0), Ok(()));
    assert_eq!(map.lookup(&text("")), Some(&0));
    assert_eq!(map.lookup(&text("a")), Some(&1));
    assert_eq!(map.lookup(&text("ab")), Some(&2));
    assert_eq!(map.lookup(&text("abc")), Some(&3));
    assert_eq!(map.lookup(&text("abcd")), None);
}

#[test]
fn insert_does_not_overwrite() {
    let mut map: ART<String, u64> = ART::new();
    assert_eq!(map.insert(&text("aa"), 1), Ok(()));
    assert_eq!(map.insert(&text("aa"), 2), Err(2));
    assert_eq!(map.lookup(&text("aa")), Some(&1));
}

#[test]
fn insert_does_not_overwrite_own_value() {
    let mut map: ART<String, u64> = ART::new();
    assert_eq!(map.insert(&text("ab"), 1), Ok(()));
    assert_eq!(map.insert(&text("abc"), 2), Ok(()));
    assert_eq!(map.insert(&text("ab"), 3), Err(3));
    assert_eq!(map.insert(&text("abc"), 4), Err(4));
    assert_eq!(map.lookup(&text("ab")), Some(&1));
    assert_eq!(map.lookup(&text("abc")), Some(&2));
}

#[test]
fn empty_key_is_a_key() {
    let mut map: ART<String, u64> = ART::new();
    assert_eq!(map.lookup(&text("")), None);
    assert_eq!(map.insert(&text(""), 7), Ok(()));
    assert_eq!(map.lookup(&text("")), Some(&7));
    assert_eq!(map.insert(&text(""), 8), Err(8));
    assert_eq!(map.remove(&text("")), Ok(7));
    assert_eq!(map.lookup(&text("")), None);
    assert_eq!(map.remove(&text("")), Err(()));
}

#[test]
fn five_single_byte_keys() {
    let mut map: ART<String, u64> = ART::new();
    for b in 0u8..5 {
        assert_eq!(map.insert_encoded(&vec![b], b as u64 + 10), Ok(()));
    }
    for b in 0u8..5 {
        assert_eq!(map.lookup_encoded(&vec![b]), Some(&(b as u64 + 10)));
    }
    assert_eq!(map.lookup_encoded(&vec![5u8]), None);
}

#[test]
fn five_keys_below_a_shared_byte_grow_the_smallest_shape() {
    let mut map: ART<String, u64> = ART::new();
    for b in 0u8..5 {
        assert_eq!(map.insert_encoded(&vec![9u8, b], b as u64), Ok(()));
        for seen in 0u8..=b {
            assert_eq!(map.lookup_encoded(&vec![9u8, seen]), Some(&(seen as u64)));
        }
    }
    assert_eq!(map.lookup_encoded(&vec![9u8]), None);
    assert_eq!(map.lookup_encoded(&vec![9u8, 5u8]), None);
}

#[test]
fn many_keys_behind_a_long_shared_prefix() {
    let prefix: Vec<u8> = (0u8..20).map(|i| 100 + i).collect();
    let mut keys: Vec<Vec<u8>> = Vec::new();
    for b in 0u16..256 {
        let mut key = prefix.clone();
        key.push(b as u8);
        keys.push(key);
    }
    for b in 0u8..4 {
        let mut key = prefix.clone();
        key.push(b);
        key.push(b);
        keys.push(key);
    }
    assert_eq!(keys.len(), 260);
    let mut map: ART<String, u64> = ART::new();
    for (i, key) in keys.iter().enumerate() {
        assert_eq!(map.insert_encoded(key, i as u64), Ok(()));
        if i == 3 || i == 4 || i == 15 || i == 16 || i == 47 || i == 48 || i == 255 || i == 259 {
            for (j, seen) in keys.iter().enumerate().take(i + 1) {
                assert_eq!(map.lookup_encoded(seen), Some(&(j as u64)));
            }
            for later in keys.iter().skip(i + 1) {
                assert_eq!(map.lookup_encoded(later), None);
            }
        }
    }
    assert_eq!(map.lookup_encoded(&prefix), None);
    let mut other = prefix.clone();
    other[15] = 0;
    other.push(1);
    assert_eq!(map.lookup_encoded(&other), None);
}

#[test]
fn two_keys_that_share_fifteen_bytes() {
    let mut map: ART<String, u64> = ART::new();
    assert_eq!(map.insert(&text("abcdefghijklmnop"), 1), Ok(()));
    assert_eq!(map.insert(&text("abcdefghijklmnoq"), 2), Ok(()));
    assert_eq!(map.lookup(&text("abcdefghijklmnop")), Some(&1));
    assert_eq!(map.lookup(&text("abcdefghijklmnoq")), Some(&2));
    assert_eq!(map.lookup(&text("abcdefghijklmno")), None);
    assert_eq!(map.lookup(&text("abcdefghijklmnor")), None);
    assert_eq!(map.lookup(&text("abcdefghijklXnop")), None);
}

#[test]
fn a_key_that_leaves_a_long_prefix_behind_the_inline_part() {
    let mut map: ART<String, u64> = ART::new();
    assert_eq!(map.insert(&text("abcdefghijklmnopqrstuvwxy1"), 1), Ok(()));
    assert_eq!(map.insert(&text("abcdefghijklmnopqrstuvwxy2"), 2), Ok(()));
    assert_eq!(map.insert(&text("abcdefghijklmnopqrsZ"), 3), Ok(()));
    assert_eq!(map.insert(&text("abcdefghijklmnop"), 4), Ok(()));
    assert_eq!(map.insert(&text("abcZ"), 5), Ok(()));
    assert_eq!(map.lookup(&text("abcdefghijklmnopqrstuvwxy1")), Some(&1));
    assert_eq!(map.lookup(&text("abcdefghijklmnopqrstuvwxy2")), Some(&2));
    assert_eq!(map.lookup(&text("abcdefghijklmnopqrsZ")), Some(&3));
    assert_eq!(map.lookup(&text("abcdefghijklmnop")), Some(&4));
    assert_eq!(map.lookup(&text("abcZ")), Some(&5));
    assert_eq!(map.lookup(&text("abcdefghijklmnopqrstuvwxy3")), None);
    assert_eq!(map.lookup(&text("abcdefghijklmnopqrstuvwxy")), None);
    assert_eq!(map.lookup(&text("abcdefghijklmnopqrs")), None);
    assert_eq!(map.lookup(&text("abcdefghijklmnopqrsY")), None);
    assert_eq!(map.lookup(&text("abc")), None);
    assert_eq!(map.insert(&text("abcdefghijklmnopqrsZ"), 9), Err(9));
}

#[test]
fn remove_hands_out_the_value() {
    let mut map: ART<String, u64> = ART::new();
    assert_eq!(map.insert(&text("one"), 1), Ok(()));
    assert_eq!(map.insert(&text("two"), 2), Ok(()));
    assert_eq!(map.remove(&text("one")), Ok(1));
    assert_eq!(map.lookup(&text("one")), None);
    assert_eq!(map.lookup(&text("two")), Some(&2));
    assert_eq!(map.remove(&text("one")), Err(()));
    assert_eq!(map.remove(&text("three")), Err(()));
    assert_eq!(map.remove(&text("tw")), Err(()));
    assert_eq!(map.remove(&text("twoo")), Err(()));
    assert_eq!(map.remove(&text("two")), Ok(2));
    assert_eq!(map.lookup(&text("two")), None);
    assert_eq!(map.insert(&text("two"), 3), Ok(()));
    assert_eq!(map.lookup(&text("two")), Some(&3));
}

#[test]
fn remove_on_an_empty_map() {
    let mut map: ART<String, u64> = ART::new();
    assert_eq!(map.remove(&text("a")), Err(()));
    assert_eq!(map.remove(&text("")), Err(()));
}

#[test]
fn remove_merges_a_node_with_its_last_child() {
    let mut map: ART<String, u64> = ART::new();
    assert_eq!(map.insert(&text("romane"), 1), Ok(()));
    assert_eq!(map.insert(&text("romanus"), 2), Ok(()));
    assert_eq!(map.insert(&text("romulus"), 3), Ok(()));
    assert_eq!(map.insert(&text("rubens"), 4), Ok(()));
    assert_eq!(map.remove(&text("romulus")), Ok(3));
    assert_eq!(map.lookup(&text("romane")), Some(&1));
    assert_eq!(map.lookup(&text("romanus")), Some(&2));
    assert_eq!(map.lookup(&text("romulus")), None);
    assert_eq!(map.lookup(&text("rubens")), Some(&4));
    assert_eq!(map.remove(&text("rubens")), Ok(4));
    assert_eq!(map.lookup(&text("romane")), Some(&1));
    assert_eq!(map.lookup(&text("romanus")), Some(&2));
    assert_eq!(map.remove(&text("romane")), Ok(1));
    assert_eq!(map.lookup(&text("romanus")), Some(&2));
    assert_eq!(map.lookup(&text("romane")), None);
    assert_eq!(map.insert(&text("romane"), 5), Ok(()));
    assert_eq!(map.lookup(&text("romane")), Some(&5));
    assert_eq!(map.lookup(&text("romanus")), Some(&2));
}

#[test]
fn remove_merges_long_compressed_paths() {
    let mut map: ART<String, u64> = ART::new();
    assert_eq!(map.insert(&text("0123456789abcdefghij-left-0123456789abcdefghij-a"), 1), Ok(()));
    assert_eq!(map.insert(&text("0123456789abcdefghij-left-0123456789abcdefghij-b"), 2), Ok(()));
    assert_eq!(map.insert(&text("0123456789abcdefghij-right"), 3), Ok(()));
    assert_eq!(map.remove(&text("0123456789abcdefghij-right")), Ok(3));
    assert_eq!(
        map.lookup(&text("0123456789abcdefghij-left-0123456789abcdefghij-a")),
        Some(&1)
    );
    assert_eq!(
        map.lookup(&text("0123456789abcdefghij-left-0123456789abcdefghij-b")),
        Some(&2)
    );
    assert_eq!(map.lookup(&text("0123456789abcdefghij-right")), None);
    assert_eq!(
        map.lookup(&text("0123456789abcdefghij-left-0123456789abcdefghij-c")),
        None
    );
    assert_eq!(map.insert(&text("0123456789abcdefghij-left-0123456789abcdeXghij-a"), 4), Ok(()));
    assert_eq!(
        map.lookup(&text("0123456789abcdefghij-left-0123456789abcdeXghij-a")),
        Some(&4)
    );
    assert_eq!(
        map.lookup(&text("0123456789abcdefghij-left-0123456789abcdefghij-a")),
        Some(&1)
    );
}

#[test]
fn remove_leaves_the_own_value_alone() {
    let mut map: ART<String, u64> = ART::new();
    assert_eq!(map.insert(&text("ab"), 1), Ok(()));
    assert_eq!(map.insert(&text("abc"), 2), Ok(()));
    assert_eq!(map.insert(&text("abd"), 3), Ok(()));
    assert_eq!(map.remove(&text("abc")), Ok(2));
    assert_eq!(map.remove(&text("abd")), Ok(3));
    assert_eq!(map.lookup(&text("ab")), Some(&1));
    assert_eq!(map.lookup(&text("abc")), None);
    assert_eq!(map.insert(&text("abcd"), 4), Ok(()));
    assert_eq!(map.remove(&text("ab")), Ok(1));
    assert_eq!(map.lookup(&text("abcd")), Some(&4));
    assert_eq!(map.lookup(&text("ab")), None);
}

#[test]
fn remove_across_all_shrink_steps() {
    let prefix: Vec<u8> = vec![1, 2, 3];
    let mut map: ART<String, u64> = ART::new();
    let mut keys: Vec<Vec<u8>> = Vec::new();
    for b in 0u16..256 {
        let mut key = prefix.clone();
        key.push(b as u8);
        key.push(7);
        keys.push(key);
    }
    for (i, key) in keys.iter().enumerate() {
        assert_eq!(map.insert_encoded(key, i as u64), Ok(()));
    }
    for gone in 0..keys.len() {
        assert_eq!(map.remove_encoded(&keys[gone]), Ok(gone as u64));
        assert_eq!(map.remove_encoded(&keys[gone]), Err(()));
        let left = keys.len() - gone - 1;
        if left == 49 || left == 48 || left == 47 || left == 17 || left == 16 || left == 15
            || left == 5 || left == 4 || left == 3 || left == 2 || left == 1 || left == 0
        {
            for (j, key) in keys.iter().enumerate() {
                if j <= gone {
                    assert_eq!(map.lookup_encoded(key), None);
                } else {
                    assert_eq!(map.lookup_encoded(key), Some(&(j as u64)));
                }
            }
        }
    }
    for (i, key) in keys.iter().enumerate() {
        assert_eq!(map.insert_encoded(key, i as u64 + 1), Ok(()));
    }
    for (i, key) in keys.iter().enumerate() {
        assert_eq!(map.lookup_encoded(key), Some(&(i as u64 + 1)));
    }
}

#[test]
fn root_shrinks_and_grows_again() {
    let mut map: ART<String, u64> = ART::new();
    for b in 0u16..256 {
        assert_eq!(map.insert_encoded(&vec![b as u8], b as u64), Ok(()));
    }
    for b in 0u16..256 {
        assert_eq!(map.remove_encoded(&vec![b as u8]), Ok(b as u64));
        for rest in (b + 1)..256 {
            assert_eq!(map.lookup_encoded(&vec![rest as u8]), Some(&(rest as u64)));
        }
    }
    for b in 0u16..256 {
        assert_eq!(map.lookup_encoded(&vec![b as u8]), None);
    }
    for b in (0u16..256).rev() {
        assert_eq!(map.insert_encoded(&vec![b as u8], b as u64 + 1), Ok(()));
    }
    for b in 0u16..256 {
        assert_eq!(map.lookup_encoded(&vec![b as u8]), Some(&(b as u64 + 1)));
    }
}

#[test]
fn round_trip_of_distinct_keys() {
    let keys = [
        "",
        "a",
        "b",
        "ab",
        "ba",
        "abc",
        "abd",
        "zzzzzzzzzzzzzzzzzzzzzzzzzz",
        "zzzzzzzzzzzzzzzzzzzzzzzzza",
    ];
    let mut map: ART<String, usize> = ART::new();
    for (i, key) in keys.iter().enumerate() {
        assert_eq!(map.insert(&text(key), i), Ok(()));
    }
    for (i, key) in keys.iter().enumerate() {
        assert_eq!(map.lookup(&text(key)), Some(&i));
    }
    for key in ["c", "aa", "abe", "zzzzzzzzzzzzzzzzzzzzzzzzz", "zzzzzzzzzzzzzzzzzzzzzzzzzzz"] {
        assert_eq!(map.lookup(&text(key)), None);
    }
}

#[test]
fn string_keys_are_stored_under_their_utf8_bytes() {
    assert_eq!(text("abc").encode(), vec![0x61, 0x62, 0x63]);
    assert_eq!(text("").encode(), Vec::<u8>::new());
    assert_eq!(text("h\u{e9}").encode(), vec![0x68, 0xc3, 0xa9]);
    let mut map: ART<String, u64> = ART::new();
    assert_eq!(map.insert(&text("h\u{e9}"), 1), Ok(()));
    assert_eq!(map.insert(&text("h\u{e8}"), 2), Ok(()));
    assert_eq!(map.lookup(&text("h\u{e9}")), Some(&1));
    assert_eq!(map.lookup(&text("h\u{e8}")), Some(&2));
    assert_eq!(map.lookup(&text("h")), None);
}

#[test]
fn encoded_keys_and_keys_meet_in_one_map() {
    let mut map: ART<String, &str> = ART::new();
    assert_eq!(map.insert_encoded(&vec![0x61, 0x62], "x"), Ok(()));
    assert_eq!(map.lookup(&text("ab")), Some(&"x"));
    assert_eq!(map.insert(&text("ab"), "y"), Err("y"));
    assert_eq!(map.insert(&text("cd"), "z"), Ok(()));
    assert_eq!(map.lookup_encoded(&vec![0x63, 0x64]), Some(&"z"));
    assert_eq!(map.insert_encoded(&vec![0, 255, 7], "w"), Ok(()));
    assert_eq!(map.lookup_encoded(&vec![0, 255, 7]), Some(&"w"));
    assert_eq!(map.lookup_encoded(&vec![0, 255]), None);
    assert_eq!(map.remove_encoded(&vec![0x61, 0x62]), Ok("x"));
    assert_eq!(map.remove(&text("ab")), Err(()));
    assert_eq!(map.remove(&text("cd")), Ok("z"));
}

#[test]
fn try_insert_names_the_reason() {
    let mut map: ART<String, u64> = ART::new();
    assert!(matches!(map.try_insert(&text("k"), 1), Ok(())));
    assert!(matches!(map.try_insert(&text("k"), 2), Err(InsertError::KeyExists(2))));
    assert!(matches!(map.try_insert(&text("kk"), 3), Ok(())));
    assert_eq!(map.lookup(&text("k")), Some(&1));
    assert_eq!(map.lookup(&text("kk")), Some(&3));
}

#[test]
fn values_need_not_be_copied() {
    let mut map: ART<String, String> = ART::new();
    assert_eq!(map.insert(&text("k"), text("v")), Ok(()));
    assert_eq!(map.insert(&text("k"), text("w")), Err(text("w")));
    assert_eq!(map.lookup(&text("k")), Some(&text("v")));
    assert_eq!(map.remove(&text("k")), Ok(text("v")));
}

#[test]
fn random_operations_agree_with_a_reference_map() {
    let mut state: u64 = 0x5eed;
    let mut map: ART<String, u64> = ART::new();
    let mut reference: BTreeMap<Vec<u8>, u64> = BTreeMap::new();
    for round in 0..20000u64 {
        let key = random_key(&mut state, 6, 3);
        match next(&mut state) % 3 {
            0 => {
                let expected = if reference.contains_key(&key) {
                    Err(round)
                } else {
                    reference.insert(key.clone(), round);
                    Ok(())
                };
                assert_eq!(map.insert_encoded(&key, round), expected);
            }
            1 => {
                assert_eq!(map.lookup_encoded(&key), reference.get(&key));
            }
            _ => {
                assert_eq!(map.remove_encoded(&key).ok(), reference.remove(&key));
            }
        }
    }
    for (key, value) in reference.iter() {
        assert_eq!(map.lookup_encoded(key), Some(value));
    }
}

#[test]
fn random_operations_on_wide_nodes_agree_with_a_reference_map() {
    let mut state: u64 = 0xabcdef;
    let mut map: ART<String, u64> = ART::new();
    let mut reference: BTreeMap<Vec<u8>, u64> = BTreeMap::new();
    for round in 0..30000u64 {
        let mut key = random_key(&mut state, 2, 256);
        if next(&mut state) % 2 == 0 {
            let mut long: Vec<u8> = vec![42; 14];
            long.extend_from_slice(&key);
            key = long;
        }
        let phase = (round / 5000) % 2;
        let choice = next(&mut state) % 4;
        let insert = if phase == 0 { choice < 2 } else { choice < 1 };
        if insert {
            let expected = if reference.contains_key(&key) {
                Err(round)
            } else {
                reference.insert(key.clone(), round);
                Ok(())
            };
            assert_eq!(map.insert_encoded(&key, round), expected);
        } else if choice == 3 {
            assert_eq!(map.lookup_encoded(&key), reference.get(&key));
        } else {
            let victim = if next(&mut state) % 2 == 0 {
                reference.range(key.clone()..).next().map(|(k, _)| k.clone())
            } else {
                None
            };
            let victim = victim.unwrap_or(key);
            assert_eq!(map.remove_encoded(&victim).ok(), reference.remove(&victim));
        }
    }
    for (key, value) in reference.iter() {
        assert_eq!(map.lookup_encoded(key), Some(value));
    }
    let keys: Vec<Vec<u8>> = reference.keys().cloned().collect();
    for key in keys {
        assert_eq!(map.remove_encoded(&key).ok(), reference.remove(&key));
        assert_eq!(map.lookup_encoded(&key), None);
    }
}

#[test]
fn random_operations_on_long_paths_agree_with_a_reference_map() {
    let mut state: u64 = 0x10ad;
    let mut map: ART<String, u64> = ART::new();
    let mut reference: BTreeMap<Vec<u8>, u64> = BTreeMap::new();
    for round in 0..20000u64 {
        let mut key = Vec::new();
        let runs = next(&mut state) % 4;
        for _ in 0..runs {
            let byte = (next(&mut state) % 2) as u8;
            let len = next(&mut state) % 18;
            for _ in 0..len {
                key.push(byte);
            }
        }
        match next(&mut state) % 5 {
            0 | 1 => {
                let expected = if reference.contains_key(&key) {
                    Err(round)
                } else {
                    reference.insert(key.clone(), round);
                    Ok(())
                };
                assert_eq!(map.insert_encoded(&key, round), expected);
            }
            2 => {
                assert_eq!(map.lookup_encoded(&key), reference.get(&key));
            }
            _ => {
                assert_eq!(map.remove_encoded(&key).ok(), reference.remove(&key));
            }
        }
        if round % 1000 == 0 {
            for (key, value) in reference.iter() {
                assert_eq!(map.lookup_encoded(key), Some(value));
            }
        }
    }
    let keys: Vec<Vec<u8>> = reference.keys().cloned().collect();
    for key in keys {
        assert_eq!(map.lookup_encoded(&key), reference.get(&key));
        assert_eq!(map.remove_encoded(&key).ok(), reference.remove(&key));
        assert_eq!(map.lookup_encoded(&key), None);
    }
    assert_eq!(map.lookup_encoded(&Vec::new()), None);
}
