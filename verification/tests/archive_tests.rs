use azurite::archive::{Data, Packed};

#[test]
fn basic_test() {
    let packed = Packed::new().with(Data(vec![5, 3, 2]));

    let bytes = packed.clone().as_bytes();

    assert_eq!(Some(packed), Packed::from_bytes(&bytes));
}

#[test]
fn empty_archive() {
    let packed = Packed::new();

    let bytes = packed.clone().as_bytes();
    assert_eq!(Some(packed), Packed::from_bytes(&bytes));
}

#[test]
fn from_packed_to_vec_of_data() {
    let data = Data(vec![0, 1, 2, 3]);

    let vec = vec![data.clone()];

    let packed = Packed::new().with(data);

    let packed_vec: Vec<_> = packed.into();

    assert_eq!(packed_vec, vec);
}

#[test]
fn from_vec_of_data_to_packed() {
    let data = Data(vec![0, 1, 2, 3]);

    let vec = vec![data.clone()];
    let packed = Packed::new().with(data);

    let packed_created = Packed::from(vec);

    assert_eq!(packed, packed_created);
}

#[test]
fn default() {
    assert_eq!(Packed::new(), Packed::default())
}

#[test]
fn archive_layout() {
    let bytes = Packed::new().with(Data(vec![9])).with(Data(vec![])).as_bytes();
    assert_eq!(bytes.len(), 8 + 8 + 16 + 1);
    assert_eq!(&bytes[8..16], &2u64.to_le_bytes());
    assert_eq!(&bytes[16..24], &1u64.to_le_bytes());
    assert_eq!(&bytes[24..32], &0u64.to_le_bytes());
    assert_eq!(bytes[32], 9);
}

#[test]
fn several_blobs_round_trip() {
    let packed = Packed::new()
        .with(Data(vec![1, 2, 3]))
        .with(Data(vec![]))
        .with(Data((0..=255).collect()));
    let bytes = packed.clone().as_bytes();
    assert_eq!(Packed::from_bytes(&bytes), Some(packed));
}

#[test]
fn truncated_archives_are_refused() {
    let bytes = Packed::new().with(Data(vec![1, 2, 3])).as_bytes();
    assert_eq!(Packed::from_bytes(&bytes[..bytes.len() - 1]), None);
    assert_eq!(Packed::from_bytes(&bytes[..7]), None);
    assert_eq!(Packed::from_bytes(&bytes[..12]), None);
}

#[test]
fn header_without_blobs() {
    let mut bytes = vec![0u8; 8];
    bytes.extend_from_slice(&0u64.to_le_bytes());
    assert_eq!(Packed::from_bytes(&bytes), Some(Packed::new()));
}

#[test]
fn data_size() {
    assert_eq!(Data(vec![1, 2]).size(), 2);
}
