use suffix_array::{SaError, SuffixArray};

struct Lcg(u64);

impl Lcg {
    fn next(&mut self) -> u64 {
        self.0 = self.0.wrapping_mul(6364136223846793005).wrapping_add(1442695040888963407);
        self.0 >> 33
    }

    fn bytes(&mut self, n: usize, alphabet: u64) -> Vec<u8> {
        (0..n).map(|_| (self.next() % alphabet) as u8).collect()
    }
}

fn assert_valid(s: &[u8]) {
    let sa = SuffixArray::new(s.to_vec()).unwrap();
    let (text, arr) = sa.to_parts();
    assert_eq!(text, s);
    assert_eq!(arr.len(), s.len() + 1);
    let mut seen = vec![false; s.len() + 1];
    for &p in arr {
        assert!(!seen[p as usize]);
        seen[p as usize] = true;
    }
    assert_eq!(arr[0] as usize, s.len());
    for i in 1..arr.len() {
        assert!(s[arr[i - 1] as usize..] < s[arr[i] as usize..]);
    }
}

#[test]
fn random_strings_sort() {
    let mut g = Lcg(7);
    for &n in &[0usize, 1, 2, 3, 5, 17, 100, 1000, 8192] {
        let s = g.bytes(n, 256);
        assert_valid(&s);
    }
}

#[test]
fn degenerate_strings_sort() {
    let mut g = Lcg(11);
    assert_valid(&vec![b'x'; 2000]);
    let inc: Vec<u8> = (0..=255u8).collect();
    assert_valid(&inc);
    let dec: Vec<u8> = (0..=255u8).rev().collect();
    assert_valid(&dec);
    let ab: Vec<u8> = (0..2000).map(|i| if i % 2 == 0 { b'a' } else { b'b' }).collect();
    assert_valid(&ab);
    let two = g.bytes(3000, 2);
    assert_valid(&two);
}

#[test]
fn empty_string() {
    let sa = SuffixArray::new(Vec::new()).unwrap();
    assert!(sa.is_empty());
    assert_eq!(sa.len(), 0);
    assert_eq!(sa.to_parts().1, &[0u32][..]);
    assert!(sa.contains(b""));
    assert!(!sa.contains(b"a"));
    assert_eq!(sa.search_lcp(b"a"), 0..0);
}

#[test]
fn single_byte() {
    let sa = SuffixArray::new(b"a".to_vec()).unwrap();
    assert_eq!(sa.to_parts().1, &[1u32, 0][..]);
    assert_eq!(sa.find_region(b"a"), (1, 2));
    // "b" sorts after every suffix, so its empty region sits at the end.
    let (lo, hi) = sa.find_region(b"b");
    assert_eq!(lo, hi);
    assert_eq!((lo, hi), (2, 2));
}

#[test]
fn banana() {
    let sa = SuffixArray::new(b"banana".to_vec()).unwrap();
    assert_eq!(sa.to_parts().1, &[6u32, 5, 3, 1, 0, 4, 2][..]);
    let (lo, hi) = sa.find_region(b"an");
    assert_eq!(hi - lo, 2);
    let mut hits: Vec<u32> = sa.to_parts().1[lo..hi].to_vec();
    hits.sort();
    assert_eq!(hits, vec![1, 3]);
    assert_eq!(sa.search_lcp(b"band"), 0..3);
}

#[test]
fn constant_string() {
    let sa = SuffixArray::new(b"aaaaaa".to_vec()).unwrap();
    assert_eq!(sa.to_parts().1, &[6u32, 5, 4, 3, 2, 1, 0][..]);
    assert_eq!(sa.search_all(b"aa").len(), 5);
}

#[test]
fn mississippi() {
    let sa = SuffixArray::new(b"mississippi".to_vec()).unwrap();
    assert_eq!(sa.to_parts().1, &[11u32, 10, 7, 4, 1, 0, 9, 8, 6, 3, 5, 2][..]);
    let (lo, hi) = sa.find_region(b"iss");
    let mut hits: Vec<u32> = sa.to_parts().1[lo..hi].to_vec();
    hits.sort();
    assert_eq!(hits, vec![1, 4]);
    // "issippi" at 4 shares "iss" with the pattern, longer than "is".
    let r = sa.search_lcp(b"issa");
    assert_eq!(r, 4..7);
    assert_eq!(&b"mississippi"[r], b"iss");
}

#[test]
fn cyclic_shift_is_inconsistent() {
    let s = b"banana".to_vec();
    let shifted = vec![5u32, 3, 1, 0, 4, 2, 6];
    assert_eq!(SuffixArray::from_parts(s, shifted).err(), Some(SaError::InconsistentSA));
}

#[test]
fn from_parts_checks() {
    let s = b"banana".to_vec();
    let good = vec![6u32, 5, 3, 1, 0, 4, 2];
    let sa = SuffixArray::from_parts(s.clone(), good.clone()).unwrap();
    assert_eq!(sa.into_parts(), (s.clone(), good.clone()));
    assert_eq!(SuffixArray::from_parts(s.clone(), vec![6, 5, 3]).err(), Some(SaError::InconsistentSA));
    assert_eq!(
        SuffixArray::from_parts(s.clone(), vec![6, 5, 3, 1, 0, 4, 9]).err(),
        Some(SaError::InconsistentSA)
    );
    let sa = SuffixArray::unchecked_from_parts(s.clone(), good.clone());
    assert_eq!(sa.to_parts().1, &good[..]);
}

#[test]
fn set_and_fit() {
    let mut sa = SuffixArray::new(b"banana".to_vec()).unwrap();
    sa.enable_buckets();
    assert_eq!(sa.set(b"mississippi"), Ok(()));
    assert_eq!(sa.len(), 11);
    assert_eq!(sa.to_parts().0, b"mississippi");
    assert_eq!(sa.to_parts().1, &[11u32, 10, 7, 4, 1, 0, 9, 8, 6, 3, 5, 2][..]);
    sa.fit();
    assert_eq!(sa.to_parts().1, &[11u32, 10, 7, 4, 1, 0, 9, 8, 6, 3, 5, 2][..]);
    assert!(sa.contains(b"ssi"));
}

#[test]
fn pack_round_trip() {
    let mut g = Lcg(3);
    let s = g.bytes(500, 4);
    let sa = SuffixArray::new(s.clone()).unwrap();
    let bytes = sa.dump_bytes();
    assert_eq!(bytes.len(), 4 * (s.len() + 1));
    let back = SuffixArray::load_bytes(s.clone(), &bytes).unwrap();
    assert_eq!(back.to_parts().1, sa.to_parts().1);
    let back = SuffixArray::unchecked_load_bytes(s.clone(), &bytes).unwrap();
    assert_eq!(back.to_parts().1, sa.to_parts().1);
}

#[test]
fn pack_layout() {
    let sa = SuffixArray::new(b"a".to_vec()).unwrap();
    assert_eq!(sa.dump_bytes(), vec![1, 0, 0, 0, 0, 0, 0, 0]);
    let big = SuffixArray::load_bytes(Vec::new(), &[0, 0, 0, 0]).unwrap();
    assert_eq!(big.to_parts().1, &[0u32][..]);
}

#[test]
fn load_errors() {
    let s = b"banana".to_vec();
    assert_eq!(SuffixArray::load_bytes(s.clone(), &[1, 2, 3]).err(), Some(SaError::Corrupt));
    let mut bytes = SuffixArray::new(s.clone()).unwrap().dump_bytes();
    bytes.swap(0, 4);
    assert_eq!(SuffixArray::load_bytes(s.clone(), &bytes).err(), Some(SaError::InconsistentSA));
    assert_eq!(SuffixArray::unchecked_load_bytes(s, &[9]).err(), Some(SaError::Corrupt));
}
