use tagmu::codec::{compound_key, from_compound_key, u64_from_be, u64_to_be};
use tagmu::id::{Id, ItemID, TagID};
use tagmu::store::{must_u8_16, must_u8_8, trailing_ids, StoreError};

#[test]
fn encodes_big_endian() {
    assert_eq!(u64_to_be(0x0102030405060708), [1, 2, 3, 4, 5, 6, 7, 8]);
    assert_eq!(u64_to_be(0), [0; 8]);
    assert_eq!(u64_to_be(u64::MAX), [0xff; 8]);
    assert_eq!(u64_from_be(&[0, 0, 0, 0, 0, 0, 1, 0]), 256);
    assert_eq!(u64_from_be(&u64_to_be(123456789)), 123456789);
}

#[test]
fn encoding_preserves_order() {
    let values = [0u64, 1, 255, 256, 65535, 65536, 1 << 40, u64::MAX - 1, u64::MAX];
    for a in values {
        for b in values {
            assert_eq!(a.cmp(&b), u64_to_be(a).cmp(&u64_to_be(b)));
        }
    }
}

#[test]
fn compound_key_layout() {
    let k = compound_key(TagID(2), ItemID(0x0a0b));
    assert_eq!(k, [0, 0, 0, 0, 0, 0, 0, 2, 0, 0, 0, 0, 0, 0, 0x0a, 0x0b]);
    let (t, i): (TagID, ItemID) = from_compound_key(&k);
    assert_eq!(t, TagID(2));
    assert_eq!(i, ItemID(0x0a0b));
    let (i2, t2): (ItemID, TagID) = from_compound_key(&compound_key(ItemID(9), TagID(u64::MAX)));
    assert_eq!(i2.to_u64(), 9);
    assert_eq!(t2.to_u64(), u64::MAX);
}

#[test]
fn id_kinds_convert() {
    assert_eq!(TagID::from_u64(5), TagID(5));
    assert_eq!(ItemID::from_u64(6).to_u64(), 6);
}

#[test]
fn fixed_width_reads() {
    assert_eq!(must_u8_8(&[1, 2, 3, 4, 5, 6, 7, 8]).unwrap(), [1, 2, 3, 4, 5, 6, 7, 8]);
    assert!(matches!(must_u8_8(&[1, 2, 3]), Err(StoreError::InternalError {})));
    assert!(matches!(must_u8_16(&[0; 8]), Err(StoreError::InternalError {})));
    assert_eq!(must_u8_16(&[7; 16]).unwrap(), [7; 16]);
}

#[test]
fn trailing_ids_of_keys() {
    let keys = vec![
        compound_key(TagID(1), ItemID(4)).to_vec(),
        compound_key(TagID(1), ItemID(600)).to_vec(),
    ];
    let ids = trailing_ids::<TagID, ItemID>(&keys);
    assert_eq!(ids.len(), 2);
    assert_eq!(*ids[0].as_ref().unwrap(), ItemID(4));
    assert_eq!(*ids[1].as_ref().unwrap(), ItemID(600));
    let mixed = vec![
        compound_key(TagID(1), ItemID(4)).to_vec(),
        vec![0u8; 15],
        compound_key(TagID(1), ItemID(9)).to_vec(),
    ];
    let r = trailing_ids::<TagID, ItemID>(&mixed);
    assert_eq!(r.len(), 3);
    assert_eq!(*r[0].as_ref().unwrap(), ItemID(4));
    assert!(matches!(r[1], Err(StoreError::InternalError {})));
    assert_eq!(*r[2].as_ref().unwrap(), ItemID(9));
    assert!(trailing_ids::<TagID, ItemID>(&vec![]).is_empty());
}
