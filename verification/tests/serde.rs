use std::collections::HashMap;

use risc0_zkp::entry_map::EntryMap;
use risc0_zkp::serde::{align_up, from_slice, to_slice, to_vec, to_vec_with_capacity, Error};

#[test]
fn test_vec_round_trip() {
    let input: Vec<u64> = vec![1, 2, 3];
    let data = to_vec(&input).unwrap();
    let output: Vec<u64> = from_slice(data.as_slice()).unwrap();
    assert_eq!(input, output);
}

#[test]
fn test_map_round_trip() {
    let input: HashMap<&str, u32> = HashMap::from([("foo", 1), ("bar", 2), ("baz", 3)]);
    let mut map: EntryMap<String, u32> = EntryMap::new();
    for (k, v) in input.iter() {
        map.insert(k.to_string(), *v);
    }
    let data = to_vec(&map).unwrap();
    let read: EntryMap<String, u32> = from_slice(data.as_slice()).unwrap();
    let output: HashMap<&str, u32> = read.entries().iter().map(|(k, v)| (k.as_str(), *v)).collect();
    assert_eq!(input, output);
}

#[test]
fn maps_keep_one_value_for_each_key() {
    let mut map: EntryMap<String, u32> = EntryMap::new();
    assert_eq!(map.len(), 0);
    map.insert(String::from("foo"), 1);
    map.insert(String::from("bar"), 2);
    map.insert(String::from("foo"), 3);
    assert_eq!(map.len(), 2);
    assert_eq!(map.get(&String::from("foo")), Some(&3));
    assert_eq!(map.get(&String::from("bar")), Some(&2));
    assert_eq!(map.get(&String::from("baz")), None);
    assert_eq!(map.entries(), &vec![(String::from("foo"), 3), (String::from("bar"), 2)]);
}

#[test]
fn maps_are_written_as_their_entries() {
    let mut map: EntryMap<u64, String> = EntryMap::new();
    map.insert(7, String::from("seven"));
    map.insert(1 << 32, String::from("big"));
    let entries = vec![(7u64, String::from("seven")), (1 << 32, String::from("big"))];
    let data = to_vec(&map).unwrap();
    assert_eq!(data, to_vec(&entries).unwrap());
    let read: EntryMap<u64, String> = from_slice(&data).unwrap();
    assert_eq!(read.entries(), &entries);
}

#[test]
fn later_entries_prevail_when_a_map_is_read() {
    let entries: Vec<(u32, u32)> = vec![(1, 10), (2, 20), (1, 30)];
    let data = to_vec(&entries).unwrap();
    let read: EntryMap<u32, u32> = from_slice(&data).unwrap();
    assert_eq!(read.entries(), &vec![(1, 30), (2, 20)]);
    let short: Result<EntryMap<u32, u32>, Error> = from_slice(&data[..6]);
    assert_eq!(short.err(), Some(Error::UnexpectedEnd));
}

#[test]
fn test_tuple_round_trip() {
    let input: (u32, u64) = (1, 2);
    let data = to_vec(&input).unwrap();
    let output: (u32, u64) = from_slice(data.as_slice()).unwrap();
    assert_eq!(input, output);
}

#[test]
fn integers_are_written_low_word_first() {
    assert_eq!(to_vec(&7u32).unwrap(), vec![7]);
    assert_eq!(to_vec(&0x0000_0005_0000_0009u64).unwrap(), vec![9, 5]);
    assert_eq!(from_slice::<u64>(&[9, 5]), Ok(0x0000_0005_0000_0009));
    assert_eq!(from_slice::<u64>(&[u32::MAX, u32::MAX]), Ok(u64::MAX));
}

#[test]
fn sequences_are_prefixed_by_their_length() {
    let input: Vec<u64> = vec![1, 2, 3];
    assert_eq!(to_vec(&input).unwrap(), vec![3, 1, 0, 2, 0, 3, 0]);
    let empty: Vec<u32> = vec![];
    assert_eq!(to_vec(&empty).unwrap(), vec![0]);
    assert_eq!(from_slice::<Vec<u32>>(&[0]), Ok(vec![]));
}

#[test]
fn strings_are_packed_and_padded() {
    assert_eq!(to_vec(&String::from("foo")).unwrap(), vec![3, 0x006f_6f66]);
    assert_eq!(to_vec(&String::from("abcd")).unwrap(), vec![4, 0x6463_6261]);
    assert_eq!(to_vec(&String::from("abcde")).unwrap(), vec![5, 0x6463_6261, 0x65]);
    assert_eq!(to_vec(&String::new()).unwrap(), vec![0]);
}

#[test]
fn strings_beyond_ascii_round_trip() {
    for text in ["", "a", "naïve", "日本語", "🦀 crab"] {
        let input = text.to_string();
        let data = to_vec(&input).unwrap();
        assert_eq!(data.len(), 1 + (text.len() + 3) / 4);
        assert_eq!(from_slice::<String>(&data), Ok(input));
    }
}

#[test]
fn padding_is_ignored_when_read() {
    assert_eq!(from_slice::<String>(&[3, 0xff6f_6f66]), Ok(String::from("foo")));
}

#[test]
fn trailing_words_are_ignored() {
    assert_eq!(from_slice::<u32>(&[1, 2, 3]), Ok(1));
    assert_eq!(from_slice::<(u32, u64)>(&[1, 2, 3, 4]), Ok((1, 0x3_0000_0002)));
}

#[test]
fn nested_values_round_trip() {
    let input: Vec<Vec<(String, u64)>> = vec![
        vec![(String::from("one"), 1), (String::from("three"), u64::MAX)],
        vec![],
        vec![(String::from(""), 0)],
    ];
    let data = to_vec(&input).unwrap();
    assert_eq!(from_slice::<Vec<Vec<(String, u64)>>>(&data), Ok(input));
}

#[test]
fn words_that_end_early_are_refused() {
    assert_eq!(from_slice::<u32>(&[]), Err(Error::UnexpectedEnd));
    assert_eq!(from_slice::<u64>(&[1]), Err(Error::UnexpectedEnd));
    assert_eq!(from_slice::<Vec<u32>>(&[]), Err(Error::UnexpectedEnd));
    assert_eq!(from_slice::<Vec<u32>>(&[3, 1, 2]), Err(Error::UnexpectedEnd));
    assert_eq!(from_slice::<Vec<u64>>(&[u32::MAX]), Err(Error::UnexpectedEnd));
    assert_eq!(from_slice::<(u32, u32)>(&[1]), Err(Error::UnexpectedEnd));
    assert_eq!(from_slice::<String>(&[]), Err(Error::UnexpectedEnd));
    assert_eq!(from_slice::<String>(&[5, 0x6463_6261]), Err(Error::UnexpectedEnd));
}

#[test]
fn bad_utf8_is_refused() {
    assert_eq!(from_slice::<String>(&[1, 0xff]), Err(Error::BadUtf8));
    assert_eq!(from_slice::<String>(&[2, 0x0000_28c3]), Err(Error::BadUtf8));
}

#[test]
fn excessive_string_lengths_are_refused() {
    assert_eq!(from_slice::<String>(&[0xffff_fffc]), Err(Error::BadLength));
    assert_eq!(from_slice::<String>(&[0xffff_fffb]), Err(Error::UnexpectedEnd));
}

#[test]
fn slices_receive_the_words_of_a_value() {
    let mut buf = [9u32; 4];
    assert_eq!(to_slice(&(1u32, 2u64), &mut buf), Ok(3));
    assert_eq!(buf, [1, 2, 0, 9]);
    let mut short = [9u32; 2];
    assert_eq!(to_slice(&(1u32, 2u64), &mut short), Err(Error::BufferFull));
    assert_eq!(short, [9, 9]);
}

#[test]
fn capacity_does_not_change_the_words() {
    let value: Vec<u64> = vec![1, 2, 3];
    assert_eq!(to_vec_with_capacity(&value, 0), to_vec(&value));
    assert_eq!(to_vec_with_capacity(&value, 100), to_vec(&value));
}

#[test]
fn align_up_rounds_to_the_next_multiple() {
    assert_eq!(align_up(0, 4), 0);
    assert_eq!(align_up(1, 4), 4);
    assert_eq!(align_up(4, 4), 4);
    assert_eq!(align_up(5, 4), 8);
    assert_eq!(align_up(13, 1), 13);
    assert_eq!(align_up(1000, 1024), 1024);
    assert_eq!(align_up(1025, 1024), 2048);
    assert_eq!(align_up(usize::MAX, 1), usize::MAX);
    assert_eq!(align_up(usize::MAX - 3, 4), usize::MAX - 3);
}

#[test]
fn align_up_is_least_and_idempotent() {
    for bits in 0..6 {
        let align = 1usize << bits;
        for addr in 0..200 {
            let r = align_up(addr, align);
            assert_eq!(r % align, 0);
            assert!(addr <= r && r < addr + align);
            assert_eq!(align_up(r, align), r);
        }
    }
}
