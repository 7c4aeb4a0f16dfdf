use tap_escrow_manager::address::Address;
use tap_escrow_manager::order::{Key, Rank};
use tap_escrow_manager::sorted_map::SortedMap;

#[test]
fn addresses_are_ordered_byte_by_byte() {
    let mut low = [0u8; 20];
    let mut high = [0u8; 20];
    low[19] = 0xff;
    high[0] = 0x01;
    let low = Address::new(low);
    let high = Address::new(high);
    assert_eq!(low.rank(&high), Rank::Before);
    assert_eq!(high.rank(&low), Rank::After);
    assert_eq!(low.rank(&low), Rank::Same);
    assert!(low.same(&low));
    assert!(!low.same(&high));
    assert!(low < high);
}

#[test]
fn address_from_slice_wants_twenty_bytes() {
    assert_eq!(Address::from_slice(&[7u8; 20]), Some(Address::new([7u8; 20])));
    assert_eq!(Address::from_slice(&[7u8; 19]), None);
    assert_eq!(Address::from_slice(&[7u8; 21]), None);
    assert_eq!(Address::from_slice(&[]), None);
    assert_eq!(Address::new([9u8; 20]).to_vec(), vec![9u8; 20]);
}

#[test]
fn sorted_map_keeps_keys_in_order_and_once() {
    let mut m: SortedMap<i32, u64> = SortedMap::new();
    assert!(m.is_empty());
    m.insert(5, 50);
    m.insert(1, 10);
    m.insert(3, 30);
    m.insert(5, 55);
    assert_eq!(m.entries(), &vec![(1, 10), (3, 30), (5, 55)]);
    assert_eq!(m.len(), 3);
    assert_eq!(m.get(&3), Some(&30));
    assert_eq!(m.get(&4), None);
    assert_eq!(m.find(&3), Ok(1));
    assert_eq!(m.find(&4), Err(2));
    assert_eq!(m.find(&0), Err(0));
    assert_eq!(m.find(&9), Err(3));
    assert_eq!(m.key_at(2), 5);
    assert_eq!(*m.value_at(2), 55);
    m.remove(&3);
    m.remove(&4);
    assert_eq!(m.entries(), &vec![(1, 10), (5, 55)]);
    m.push_last(9, 90);
    assert_eq!(m.entries(), &vec![(1, 10), (5, 55), (9, 90)]);
}

#[test]
fn from_pairs_lets_the_later_pair_win() {
    let m = SortedMap::from_pairs(&vec![(2, 'a'), (1, 'b'), (2, 'c')]);
    assert_eq!(m.entries(), &vec![(1, 'b'), (2, 'c')]);
}
