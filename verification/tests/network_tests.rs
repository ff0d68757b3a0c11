use sea2d::networking::{
    frame_size, get_type_id, prepend_size, PacketInternal, PacketKind, DECODE_ORDER, MAX_PACKET_SIZE,
};
use std::hash::{Hash, Hasher};

#[test]
fn prepend_size_test() {
    let mut v = vec![1, 2, 3, 4, 5];
    prepend_size(&mut v);
    assert_eq!(v, vec![5, 0, 1, 2, 3, 4, 5]);
}

#[test]
fn prepend_size_test_large() {
    let mut v = vec![1; 65500];
    prepend_size(&mut v);
    assert_eq!(v.len(), 65500 + 2);
    assert_eq!(v[0], 220);
    assert_eq!(v[1], 255);
}

#[test]
fn prepend_size_of_empty_and_largest_body() {
    let mut v: Vec<u8> = Vec::new();
    prepend_size(&mut v);
    assert_eq!(v, vec![0, 0]);

    let mut big = vec![7u8; MAX_PACKET_SIZE - 2];
    prepend_size(&mut big);
    assert_eq!(big.len(), MAX_PACKET_SIZE);
    assert_eq!(big[0], 255);
    assert_eq!(big[1], 255);
}

#[test]
fn frame_header_reads_back_the_body_size() {
    for len in [0usize, 1, 5, 255, 256, 300, 65500, 65535] {
        let mut v = vec![9u8; len];
        prepend_size(&mut v);
        assert_eq!(frame_size([v[0], v[1]]), len);
        assert!(v[2..].iter().all(|b| *b == 9));
    }
    assert_eq!(frame_size([0x34, 0x12]), 0x1234);
}

fn fnv_of(text: &str) -> u64 {
    let mut hasher = fnv::FnvHasher::default();
    text.hash(&mut hasher);
    hasher.finish()
}

#[test]
fn packet_tags_are_fnv_hashes_of_type_names() {
    for kind in DECODE_ORDER {
        assert_eq!(get_type_id(kind), fnv_of(kind.kind_name()));
        assert_ne!(get_type_id(kind), 0);
    }
    assert_eq!(get_type_id(PacketKind::ClientID), fnv_of("sea2d::networking::packet::ClientID"));
    let ids: Vec<u64> = DECODE_ORDER.iter().map(|k| get_type_id(*k)).collect();
    for i in 0..ids.len() {
        for j in 0..i {
            assert_ne!(ids[i], ids[j]);
        }
    }
}

#[test]
fn packet_is_read_back_only_as_its_own_kind() {
    let packet = PacketInternal::new(PacketKind::PlayerLevel, vec![1, 2, 3]);
    assert_eq!(packet.type_id, fnv_of(PacketKind::PlayerLevel.kind_name()));
    assert_eq!(packet.try_deserialize(PacketKind::PlayerLevel), Some(&vec![1, 2, 3]));
    assert_eq!(packet.try_deserialize(PacketKind::ClientID), None);
    assert_eq!(packet.try_deserialize(PacketKind::PlayerPosition), None);
}
