use critbit::CritBit;
use critbit::bits::bit_at;

#[test]
fn verify_bit_at() {
    assert!(!bit_at(&1u8, &0u32));
    assert!(bit_at(&128u8, &0u32));
    assert!(bit_at(&1u8, &7u32));
    assert!(!bit_at(&128u8, &7u32));
}

#[test]
fn empty_len() {
    let t: CritBit<()> = CritBit::new();
    assert_eq!(t.len(), 0);
}

#[test]
fn empty_contains_key() {
    let t: CritBit<()> = CritBit::new();
    assert!(!t.contains_key(&0u8));
    assert!(!t.contains_key(&128u8));
    assert!(!t.contains_key(&255u8));
}

#[test]
fn empty_get() {
    let t: CritBit<()> = CritBit::new();
    assert_eq!(t.get(&0u8), None);
    assert_eq!(t.get(&128u8), None);
    assert_eq!(t.get(&255u8), None);
}

#[test]
fn empty_get_mut() {
    let mut t: CritBit<()> = CritBit::new();
    assert!(t.get_mut(&0u8).is_none());
    assert!(t.get_mut(&128u8).is_none());
    assert!(t.get_mut(&255u8).is_none());
}

#[test]
fn insert_len() {
    let mut t: CritBit<()> = CritBit::new();
    assert_eq!(t.len(), 0);

    t.insert(0u8, ());
    assert_eq!(t.len(), 1)
}

#[test]
fn insert_contains_key() {
    let mut t: CritBit<()> = CritBit::new();
    assert!(!t.contains_key(&0u8));

    t.insert(0u8, ());
    assert!(t.contains_key(&0u8));
}

#[test]
fn insert_get() {
    let mut t: CritBit<u8> = CritBit::new();
    assert_eq!(t.get(&0u8), None);

    t.insert(0u8, 1u8);
    assert_eq!(t.get(&0u8), Some(&1u8));
}

#[test]
fn insert_get_mut() {
    let mut t: CritBit<u8> = CritBit::new();
    assert_eq!(t.get(&0u8), None);

    t.insert(0u8, 1u8);
    assert_eq!(t.get(&0u8), Some(&1u8));

    *t.get_mut(&0u8).unwrap() = 2u8;
    assert_eq!(t.get(&0u8), Some(&2u8));
}

#[test]
fn insert_insert() {
    let mut t: CritBit<u8> = CritBit::new();
    assert_eq!(t.get(&0u8), None);

    t.insert(0u8, 1u8);
    assert_eq!(t.get(&0u8), Some(&1u8));

    assert_eq!(t.insert(0u8, 2u8), Some(1u8));
    assert_eq!(t.get(&0u8), Some(&2u8));
}

#[test]
fn insert_adjacent_keys() {
    let mut t: CritBit<u8> = CritBit::new();
    assert_eq!(t.insert(0b00000000u8, 10u8), None);
    assert_eq!(t.insert(0b00000001u8, 20u8), None);
    assert_eq!(t.len(), 2);
    assert_eq!(t.get(&0b00000000u8), Some(&10u8));
    assert_eq!(t.get(&0b00000001u8), Some(&20u8));
}

#[test]
fn insert_returns_prior_value_per_key() {
    let mut t: CritBit<u32> = CritBit::new();
    assert_eq!(t.insert(7u8, 700u32), None);
    assert_eq!(t.insert(9u8, 900u32), None);
    assert_eq!(t.insert(7u8, 701u32), Some(700u32));
    assert_eq!(t.insert(9u8, 901u32), Some(900u32));
    assert_eq!(t.len(), 2);
}

#[test]
fn many_keys_all_retrievable() {
    let mut t: CritBit<u16> = CritBit::new();
    let keys = [0u8, 255u8, 128u8, 1u8, 2u8, 3u8, 4u8, 127u8, 129u8, 64u8];
    for (i, k) in keys.iter().enumerate() {
        assert_eq!(t.insert(*k, i as u16), None);
        assert_eq!(t.len(), i + 1);
    }
    for (i, k) in keys.iter().enumerate() {
        assert_eq!(t.get(k), Some(&(i as u16)));
        assert!(t.contains_key(k));
    }
    assert!(!t.contains_key(&200u8));
    assert_eq!(t.get(&5u8), None);
}

#[test]
fn split_below_earlier_crit() {
    // 0 and 3 first differ at bit position 6 (from the MSB); adding 4, which
    // differs from 0 at position 5, splits a leaf deeper in the tree.
    let mut t: CritBit<char> = CritBit::new();
    t.insert(0u8, 'a');
    t.insert(3u8, 'b');
    t.insert(4u8, 'c');
    assert_eq!(t.len(), 3);
    assert_eq!(t.get(&0u8), Some(&'a'));
    assert_eq!(t.get(&3u8), Some(&'b'));
    assert_eq!(t.get(&4u8), Some(&'c'));
}

#[test]
fn last_write_wins() {
    let mut t: CritBit<char> = CritBit::new();
    t.insert(5u8, 'x');
    t.insert(6u8, 'y');
    t.insert(5u8, 'z');
    t.insert(7u8, 'w');
    assert_eq!(t.get(&5u8), Some(&'z'));
    assert_eq!(t.get(&6u8), Some(&'y'));
    assert_eq!(t.get(&7u8), Some(&'w'));
    assert_eq!(t.len(), 3);
}

#[test]
fn clear_empties() {
    let mut t: CritBit<u8> = CritBit::new();
    t.insert(1u8, 1u8);
    t.insert(2u8, 2u8);
    t.insert(250u8, 3u8);
    assert!(!t.is_empty());
    t.clear();
    assert!(t.is_empty());
    assert_eq!(t.len(), 0);
    assert!(!t.contains_key(&1u8));
    assert!(!t.contains_key(&2u8));
    assert!(!t.contains_key(&250u8));
}

#[test]
fn default_is_empty() {
    let t: CritBit<u8> = CritBit::default();
    assert!(t.is_empty());
    assert_eq!(t.len(), 0);
}

#[test]
fn get_mut_deep_key() {
    let mut t: CritBit<i32> = CritBit::new();
    t.insert(8u8, -1i32);
    t.insert(12u8, -2i32);
    t.insert(13u8, -3i32);
    assert!(t.get_mut(&99u8).is_none());
    *t.get_mut(&13u8).unwrap() = 33i32;
    assert_eq!(t.get(&13u8), Some(&33i32));
    assert_eq!(t.get(&8u8), Some(&-1i32));
    assert_eq!(t.get(&12u8), Some(&-2i32));
    assert_eq!(t.len(), 3);
}

#[test]
fn unit_value_scenario() {
    let mut t: CritBit<()> = CritBit::new();
    t.insert(0u8, ());
    assert_eq!(t.len(), 1);
    assert!(t.contains_key(&0u8));
}

#[test]
fn bit_at_wide_positions() {
    // Positions wrap at the key width, as rotating the key would.
    assert!(bit_at(&1u8, &15u32));
    assert!(!bit_at(&1u8, &8u32));
    assert!(bit_at(&128u8, &8u32));
}
