use corefs::ondisk::checksum::Crc32c;
use corefs::ondisk::xattr::perm;
use corefs::ondisk::xattr::{AclPrincipal, AclRecord, XattrBlock, XattrPair};

fn sample() -> XattrBlock {
    XattrBlock {
        flags: 0x0000_0042,
        xattrs: vec![
            XattrPair { name: "user.colour".into(), value: b"#C0FFEE".to_vec() },
            XattrPair { name: "security.capability".into(), value: vec![0x01, 0x02, 0x03, 0x04] },
        ],
        acls: vec![
            AclRecord { principal: AclPrincipal::User, subject: "alice".into(), permission: perm::READ | perm::WRITE },
            AclRecord { principal: AclPrincipal::Group, subject: "staff".into(), permission: perm::READ },
            AclRecord { principal: AclPrincipal::Everyone, subject: "".into(), permission: perm::READ | perm::EXECUTE },
        ],
    }
}

#[test]
fn xattr_tests_empty_roundtrip() {
    let blk = XattrBlock::default();
    let enc = blk.encode().unwrap();
    assert_eq!(XattrBlock::decode(&enc).unwrap(), blk);
}

#[test]
fn populated_roundtrip() {
    let blk = sample();
    let enc = blk.encode().unwrap();
    let dec = XattrBlock::decode(&enc).unwrap();
    assert_eq!(dec, blk);
    assert_eq!(dec.xattrs.len(), 2);
    assert_eq!(dec.acls.len(), 3);
}

#[test]
fn xattr_tests_checksum_detects_corruption() {
    let mut enc = sample().encode().unwrap();
    enc[30] ^= 0xC0;
    assert!(XattrBlock::decode(&enc).is_err());
}

#[test]
fn xattr_tests_bad_magic_rejected() {
    let mut enc = sample().encode().unwrap();
    enc[0..4].copy_from_slice(&0u32.to_le_bytes());
    let mut zeroed = enc.clone();
    zeroed[4092..4096].fill(0);
    let csum = Crc32c::hash(&zeroed);
    enc[4092..4096].copy_from_slice(&csum.to_le_bytes());
    let err = XattrBlock::decode(&enc).unwrap_err();
    assert!(err.to_string().contains("magic"));
}

#[test]
fn unknown_principal_rejected() {
    let mut enc = XattrBlock {
        flags: 0,
        xattrs: vec![],
        acls: vec![AclRecord { principal: AclPrincipal::User, subject: "x".into(), permission: 0 }],
    }
    .encode()
    .unwrap();
    enc[18] = 99;
    let mut zeroed = enc.clone();
    zeroed[4092..4096].fill(0);
    let csum = Crc32c::hash(&zeroed);
    enc[4092..4096].copy_from_slice(&csum.to_le_bytes());
    let err = XattrBlock::decode(&enc).unwrap_err();
    assert!(err.to_string().contains("principal"));
}

#[test]
fn many_entries_fill_block() {
    let mut blk = XattrBlock::default();
    for i in 0..100 {
        blk.xattrs.push(XattrPair { name: format!("k{i}"), value: vec![0xAA; 10] });
    }
    let enc = blk.encode().unwrap();
    let dec = XattrBlock::decode(&enc).unwrap();
    assert_eq!(dec.xattrs.len(), 100);
}

#[test]
fn overflow_is_rejected() {
    let mut blk = XattrBlock::default();
    for i in 0..1000 {
        blk.xattrs.push(XattrPair { name: format!("k{i}_long_name"), value: vec![0u8; 50] });
    }
    assert!(blk.encode().is_err());
}

#[test]
fn encoded_layout_matches_the_documented_offsets() {
    let blk = XattrBlock {
        flags: 7,
        xattrs: vec![XattrPair { name: "ab".into(), value: vec![9, 9, 9] }],
        acls: vec![AclRecord { principal: AclPrincipal::Group, subject: "g".into(), permission: perm::EXECUTE }],
    };
    let enc = blk.encode().unwrap();
    assert_eq!(enc.len(), 4096);
    assert_eq!(&enc[0..4], b"XJAT");
    assert_eq!(u32::from_le_bytes(enc[4..8].try_into().unwrap()), 7);
    assert_eq!(u16::from_le_bytes(enc[8..10].try_into().unwrap()), 1);
    assert_eq!(u16::from_le_bytes(enc[10..12].try_into().unwrap()), 1);
    // xattr entry: 8 + 2 + 3 = 13 bytes, rounded to 16.
    assert_eq!(u16::from_le_bytes(enc[16..18].try_into().unwrap()), 16);
    assert_eq!(&enc[24..26], b"ab");
    assert_eq!(&enc[26..29], &[9, 9, 9]);
    // acl entry at 32: 8 + 1 = 9 bytes, rounded to 16.
    assert_eq!(u16::from_le_bytes(enc[32..34].try_into().unwrap()), 16);
    assert_eq!(enc[34], 1);
    assert_eq!(enc[35], perm::EXECUTE);
    assert_eq!(enc[40], b'g');
    let mut zeroed = enc.clone();
    zeroed[4092..4096].fill(0);
    assert_eq!(u32::from_le_bytes(enc[4092..4096].try_into().unwrap()), Crc32c::hash(&zeroed));
}

#[test]
fn oversized_acl_subject_is_rejected() {
    let blk = XattrBlock {
        flags: 0,
        xattrs: vec![],
        acls: vec![AclRecord { principal: AclPrincipal::User, subject: "s".repeat(600), permission: 0 }],
    };
    assert!(blk.encode().is_err());
}

#[test]
fn non_utf8_name_is_rejected() {
    let mut enc = XattrBlock { flags: 0, xattrs: vec![XattrPair { name: "ab".into(), value: vec![] }], acls: vec![] }
        .encode()
        .unwrap();
    enc[24] = 0xFF;
    let mut zeroed = enc.clone();
    zeroed[4092..4096].fill(0);
    let csum = Crc32c::hash(&zeroed);
    enc[4092..4096].copy_from_slice(&csum.to_le_bytes());
    assert!(XattrBlock::decode(&enc).is_err());
}
