use djbhash::anadict::{dict_lines, get_letters, line_map, read_dict, search, sorted_keys, trim_ascii};
use djbhash::bisect::{bisect_left, bisect_left_ref, bisect_left_with_compare, bisect_right};
use djbhash::combinations::{each_combination, each_combination_ref, each_permutation, reverse_part};
use djbhash::words::split_words;

#[test]
fn bisect_test_left() {
    let v: [u64; 5] = [1, 2, 3, 4, 5];
    assert!(bisect_left(&v, 0, 0, v.len()) == 0);
    assert!(bisect_left(&v, 1, 0, v.len()) == 0);
    assert!(bisect_left(&v, 3, 0, v.len()) == 2);
    assert!(bisect_left(&v, 5, 0, v.len()) == 4);
    assert!(bisect_left(&v, 6, 0, v.len()) == 5);
}

#[test]
fn bisect_test_right() {
    let v: [u64; 5] = [1, 2, 3, 4, 5];
    assert!(bisect_right(&v, 0, 0, v.len()) == 0);
    assert!(bisect_right(&v, 1, 0, v.len()) == 1);
    assert!(bisect_right(&v, 3, 0, v.len()) == 3);
    assert!(bisect_right(&v, 5, 0, v.len()) == 5);
    assert!(bisect_right(&v, 6, 0, v.len()) == 5);
}

#[test]
fn lib_test_left() {
    let v: [u64; 5] = [1, 2, 3, 4, 5];
    assert!(bisect_left(&v, 0, 0, v.len()) == 0);
    assert!(bisect_left(&v, 1, 0, v.len()) == 0);
    assert!(bisect_left(&v, 3, 0, v.len()) == 2);
    assert!(bisect_left(&v, 5, 0, v.len()) == 4);
    assert!(bisect_left(&v, 6, 0, v.len()) == 5);
}

#[test]
fn lib_test_right() {
    let v: [u64; 5] = [1, 2, 3, 4, 5];
    assert!(bisect_right(&v, 0, 0, v.len()) == 0);
    assert!(bisect_right(&v, 1, 0, v.len()) == 1);
    assert!(bisect_right(&v, 3, 0, v.len()) == 3);
    assert!(bisect_right(&v, 5, 0, v.len()) == 5);
    assert!(bisect_right(&v, 6, 0, v.len()) == 5);
}

#[test]
fn test_left_ref_byte_strings() {
    let keys: Vec<Vec<u8>> = vec![b"act".to_vec(), b"dog".to_vec(), b"opt".to_vec()];
    assert_eq!(bisect_left_ref(&keys, &b"dog".to_vec(), 0, 3), 1);
    assert_eq!(bisect_left_ref(&keys, &b"cat".to_vec(), 0, 3), 1);
    assert_eq!(bisect_left_ref(&keys, &b"zzz".to_vec(), 0, 3), 3);
    assert_eq!(bisect_left_ref(&keys, &b"aa".to_vec(), 0, 3), 0);
}

#[test]
fn test_left_with_compare() {
    let v: [u32; 5] = [10, 20, 30, 40, 50];
    let r = bisect_left_with_compare(&v, &30, 0, 5, |a: &u32, b: &u32| *a < *b);
    assert_eq!(r, 2);
}

#[test]
fn test_reverse_part() {
    let mut values: Vec<i32> = vec![1, 2, 3, 4, 5];
    reverse_part(&mut values, 1, 4);
    assert!(values == vec![1, 4, 3, 2, 5]);
}

#[test]
fn test_zero() {
    let values: [i32; 4] = [1, 2, 3, 4];
    let v = each_combination(&values, 0);
    assert!(v.is_empty());
}

#[test]
fn test_combinations_two() {
    let values: [i32; 4] = [1, 2, 3, 4];
    let v = each_combination(&values, 2);
    let expect: Vec<Vec<i32>> =
        vec![vec![1, 2], vec![1, 3], vec![1, 4], vec![2, 3], vec![2, 4], vec![3, 4]];
    assert_eq!(v, expect);
    let vr = each_combination_ref(&values, 2);
    assert_eq!(vr, expect);
}

#[test]
fn test_permutations_three() {
    let values: [i32; 3] = [1, 2, 3];
    let v = each_permutation(&values);
    let expect: Vec<Vec<i32>> = vec![
        vec![1, 2, 3],
        vec![1, 3, 2],
        vec![2, 1, 3],
        vec![2, 3, 1],
        vec![3, 1, 2],
        vec![3, 2, 1],
    ];
    assert_eq!(v, expect);
}

#[test]
fn test_split_words() {
    let words = split_words("the  quick\tbrown\nfox ");
    let expect: Vec<String> = vec![
        "the".to_string(),
        "quick".to_string(),
        "brown".to_string(),
        "fox".to_string(),
    ];
    assert_eq!(words, expect);
    assert!(split_words("   ").is_empty());
    assert!(split_words("").is_empty());
}

#[test]
fn test_trim_and_letters() {
    assert_eq!(trim_ascii("  word \n"), "word".to_string());
    assert_eq!(trim_ascii("\t\t"), String::new());
    assert_eq!(get_letters("cab"), b"abc".to_vec());
    assert_eq!(get_letters(""), Vec::<u8>::new());
}

#[test]
fn test_read_dict_and_search() {
    let lines: Vec<String> = vec![
        "act\n".to_string(),
        "cat\n".to_string(),
        "dog\n".to_string(),
        "x\n".to_string(),
        "Upper\n".to_string(),
    ];
    let dict = read_dict(&lines);
    // "act" and "cat" share the key "act"; "x" is too short; "Upper" is not
    // all lower-case.
    assert_eq!(dict.len(), 2);
    let words = dict.get(&b"act".to_vec()).expect("key must be present");
    assert_eq!(words, &vec!["act".to_string(), "cat".to_string()]);

    let letters = get_letters("tac");
    let found = search(&letters, &dict);
    assert_eq!(found.len(), 2);
    assert!(found.contains(&"act".to_string()));
    assert!(found.contains(&"cat".to_string()));
    assert!(!found.contains(&"dog".to_string()));

    let none = search(&get_letters("zz"), &dict);
    assert_eq!(none.len(), 0);
}

#[test]
fn test_sorted_keys_and_lines() {
    let lines: Vec<String> =
        vec!["dog\n".to_string(), "act\n".to_string(), "cat\n".to_string()];
    let dict = read_dict(&lines);
    let keys = sorted_keys(&dict);
    assert_eq!(keys, vec![b"act".to_vec(), b"dgo".to_vec()]);
    let out = dict_lines(&dict, &keys);
    assert_eq!(out, vec![b"act act cat".to_vec(), b"dgo dog".to_vec()]);
}

#[test]
fn test_line_map() {
    let buffer = b"act act cat\ndgo dog\n";
    let map = line_map(buffer);
    assert_eq!(map.len(), 2);
    assert_eq!(map.get(&b"act".to_vec()), Some(&b"act cat".to_vec()));
    assert_eq!(map.get(&b"dgo".to_vec()), Some(&b"dog".to_vec()));
    assert_eq!(map.get(&b"xyz".to_vec()), None);
}
