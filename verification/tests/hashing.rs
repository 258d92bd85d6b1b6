use harvest::hash::HashSession;
use harvest::{hash_file, HashAlgo, Hasher};

fn hash_bytes(algo: HashAlgo, data: &[u8]) -> String {
    let mut h = Hasher::new(algo);
    h.update(data);
    h.finalize_hex()
}

#[test]
fn md5_known_answers() {
    // RFC 1321 test vectors.
    assert_eq!(hash_bytes(HashAlgo::Md5, b""), "d41d8cd98f00b204e9800998ecf8427e");
    assert_eq!(hash_bytes(HashAlgo::Md5, b"abc"), "900150983cd24fb0d6963f7d28e17f72");
}

#[test]
fn xxh3_is_deterministic_and_content_sensitive() {
    assert_eq!(hash_bytes(HashAlgo::Xxh3, b"abc"), hash_bytes(HashAlgo::Xxh3, b"abc"));
    assert_ne!(hash_bytes(HashAlgo::Xxh3, b"abc"), hash_bytes(HashAlgo::Xxh3, b"abd"));
}

#[test]
fn streaming_matches_oneshot() {
    // Feeding bytes in chunks must equal hashing them all at once.
    let data: Vec<u8> = (0..10_000u32).map(|i| (i % 251) as u8).collect();
    let oneshot = hash_bytes(HashAlgo::Xxh3, &data);
    let mut h = Hasher::new(HashAlgo::Xxh3);
    for chunk in data.chunks(97) {
        h.update(chunk);
    }
    assert_eq!(oneshot, h.finalize_hex());
}

#[test]
fn checksums_have_fixed_lengths() {
    for (algo, len) in [(HashAlgo::Xxh64, 16), (HashAlgo::Xxh3, 16), (HashAlgo::Md5, 32)] {
        for n in 0..300u32 {
            let data: Vec<u8> = n.to_le_bytes().to_vec();
            let sum = hash_file(&vec![data[..1].to_vec(), Vec::new(), data[1..].to_vec()], algo);
            assert_eq!(sum, hash_bytes(algo, &data));
            assert_eq!(sum.len(), len);
            assert!(sum.chars().all(|c| matches!(c, '0'..='9' | 'a'..='f')));
        }
    }
}

#[test]
fn a_file_is_hashed_as_it_is_read() {
    for algo in [HashAlgo::Xxh64, HashAlgo::Xxh3, HashAlgo::Md5] {
        let mut s = HashSession::new(algo);
        for chunk in [b"ab".as_slice(), b"c"] {
            s.read(chunk);
            assert!(!s.ended);
        }
        s.read(b"");
        assert!(s.ended);
        assert_eq!(s.finish(), hash_bytes(algo, b"abc"));
    }
}

#[test]
fn every_algorithm_streams() {
    let data: Vec<u8> = (0..5_000u32).map(|i| (i % 253) as u8).collect();
    for algo in [HashAlgo::Xxh64, HashAlgo::Xxh3, HashAlgo::Md5] {
        let chunks: Vec<Vec<u8>> = data.chunks(77).map(|c| c.to_vec()).collect();
        assert_eq!(hash_file(&chunks, algo), hash_bytes(algo, &data));
        assert_eq!(hash_file(&vec![data.clone()], algo), hash_bytes(algo, &data));
        assert_ne!(hash_file(&vec![], algo), hash_bytes(algo, &data));
    }
}

#[test]
fn xxh64_known_answers() {
    assert_eq!(hash_bytes(HashAlgo::Xxh64, b""), "ef46db3751d8e999");
    assert_eq!(hash_bytes(HashAlgo::Xxh64, b"abc"), "44bc2cf5ad770999");
}

#[test]
fn xxh3_known_answers() {
    assert_eq!(hash_bytes(HashAlgo::Xxh3, b""), "2d06800538d394c2");
    assert_eq!(
        hash_bytes(HashAlgo::Xxh3, b"harvest"),
        format!("{:016x}", xxhash_rust::xxh3::xxh3_64(b"harvest"))
    );
    assert_eq!(
        hash_bytes(HashAlgo::Xxh64, b"harvest"),
        format!("{:016x}", xxhash_rust::xxh64::xxh64(b"harvest", 0))
    );
}

#[test]
fn algorithms_have_names() {
    for algo in [HashAlgo::Xxh64, HashAlgo::Xxh3, HashAlgo::Md5] {
        assert_eq!(HashAlgo::parse(algo.name()), Some(algo));
    }
    assert_eq!(HashAlgo::parse("XXHash3"), Some(HashAlgo::Xxh3));
    assert_eq!(HashAlgo::parse("MD5"), Some(HashAlgo::Md5));
    assert_eq!(HashAlgo::parse("sha1"), None);
    assert_eq!(HashAlgo::parse(""), None);
    assert_eq!(HashAlgo::Xxh64.mhl_element(), Some("xxhash64be"));
    assert_eq!(HashAlgo::Md5.mhl_element(), Some("md5"));
    assert_eq!(HashAlgo::Xxh3.mhl_element(), None);
}
