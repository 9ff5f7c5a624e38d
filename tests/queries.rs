use suffix_array::SuffixArray;

struct Rng(u64);

impl Rng {
    fn next(&mut self) -> u64 {
        self.0 = self.0.wrapping_mul(6364136223846793005).wrapping_add(1442695040888963407);
        self.0 >> 33
    }
}

fn occurrences(s: &[u8], pat: &[u8]) -> Vec<u32> {
    (0..=s.len()).filter(|&p| s[p..].starts_with(pat)).map(|p| p as u32).collect()
}

fn best_lcp(s: &[u8], pat: &[u8]) -> usize {
    (0..=s.len())
        .map(|p| s[p..].iter().zip(pat).take_while(|(a, b)| a == b).count())
        .max()
        .unwrap()
}

fn check_queries(sa: &SuffixArray, s: &[u8], pat: &[u8]) {
    let want = occurrences(s, pat);
    let (lo, hi) = sa.find_region(pat);
    let mut got: Vec<u32> = sa.to_parts().1[lo..hi].to_vec();
    got.sort();
    assert_eq!(got, want);
    assert_eq!(sa.contains(pat), !want.is_empty());
    let mut all = sa.search_all(pat).to_vec();
    all.sort();
    assert_eq!(all, want);
    let r = sa.search_lcp(pat);
    let l = r.end - r.start;
    assert_eq!(l, best_lcp(s, pat));
    assert_eq!(&s[r.clone()], &pat[..l]);
}

#[test]
fn substrings_are_found() {
    let mut g = Rng(5);
    for &alpha in &[2u64, 4, 256] {
        let s: Vec<u8> = (0..600).map(|_| (g.next() % alpha) as u8).collect();
        let sa = SuffixArray::new(s.clone()).unwrap();
        for _ in 0..200 {
            let a = (g.next() as usize) % (s.len() + 1);
            let b = a + (g.next() as usize) % (s.len() + 1 - a).min(12);
            check_queries(&sa, &s, &s[a..b]);
        }
    }
}

#[test]
fn absent_patterns_are_not_found() {
    let mut g = Rng(9);
    let s: Vec<u8> = (0..500).map(|_| b'a' + (g.next() % 3) as u8).collect();
    let sa = SuffixArray::new(s.clone()).unwrap();
    for _ in 0..200 {
        let n = 1 + (g.next() as usize) % 10;
        let pat: Vec<u8> = (0..n).map(|_| b'a' + (g.next() % 5) as u8).collect();
        if occurrences(&s, &pat).is_empty() {
            let (lo, hi) = sa.find_region(&pat);
            assert_eq!(lo, hi);
            assert!(!sa.contains(&pat));
            assert!(sa.search_all(&pat).is_empty());
        }
        check_queries(&sa, &s, &pat);
    }
}

#[test]
fn buckets_change_no_answer() {
    let mut g = Rng(21);
    let s: Vec<u8> = (0..800).map(|_| b'a' + (g.next() % 4) as u8).collect();
    let plain = SuffixArray::new(s.clone()).unwrap();
    let mut fast = plain.clone();
    fast.enable_buckets();
    fast.enable_buckets();
    let mut pats: Vec<Vec<u8>> = vec![Vec::new(), b"a".to_vec(), b"z".to_vec(), b"ab".to_vec(), b"az".to_vec()];
    for _ in 0..300 {
        let n = (g.next() as usize) % 7;
        pats.push((0..n).map(|_| b'a' + (g.next() % 5) as u8).collect());
    }
    for pat in &pats {
        assert_eq!(plain.find_region(pat), fast.find_region(pat));
        assert_eq!(plain.contains(pat), fast.contains(pat));
        assert_eq!(plain.search_all(pat), fast.search_all(pat));
        assert_eq!(plain.search_lcp(pat), fast.search_lcp(pat));
        check_queries(&fast, &s, pat);
    }
}

#[test]
fn empty_pattern_spans_everything() {
    let mut sa = SuffixArray::new(b"banana".to_vec()).unwrap();
    assert_eq!(sa.find_region(b""), (0, 7));
    sa.enable_buckets();
    assert_eq!(sa.find_region(b""), (0, 7));
    assert_eq!(sa.search_all(b"").len(), 7);
    assert_eq!(sa.search_lcp(b""), 6..6);
}

#[test]
fn pattern_equal_to_a_suffix() {
    let sa = SuffixArray::new(b"abcab".to_vec()).unwrap();
    assert_eq!(sa.search_lcp(b"ab"), 3..5);
    assert_eq!(sa.search_lcp(b"b"), 4..5);
    assert_eq!(sa.search_lcp(b"zz"), 5..5);
    assert_eq!(sa.search_lcp(b"cz"), 2..3);
}

#[test]
fn bucketed_single_byte_patterns() {
    let mut sa = SuffixArray::new(b"abracadabra".to_vec()).unwrap();
    sa.enable_buckets();
    let (lo, hi) = sa.find_region(b"a");
    assert_eq!(hi - lo, 5);
    assert_eq!(sa.find_region(b"ra").1 - sa.find_region(b"ra").0, 2);
    assert!(!sa.contains(b"e"));
    assert!(sa.contains(b"a"));
    assert_eq!(sa.search_all(b"abra").len(), 2);
}
