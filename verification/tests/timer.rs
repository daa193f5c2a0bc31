use hyperfine::timer::{compute_lps_array, extract_rusage_stats, ResourceUsage, UntilAction, UntilMatcher};

#[test]
fn lps_of_known_patterns() {
    assert_eq!(compute_lps_array(b"AABAACAABAA"), vec![0, 1, 0, 1, 2, 0, 1, 2, 3, 4, 5]);
    assert_eq!(compute_lps_array(b"abcd"), vec![0, 0, 0, 0]);
    assert_eq!(compute_lps_array(b"aaaa"), vec![0, 1, 2, 3]);
    assert_eq!(compute_lps_array(b"aabaaab"), vec![0, 1, 0, 1, 2, 2, 3]);
    assert_eq!(compute_lps_array(b"x"), vec![0]);
}

fn naive_lps(p: &[u8]) -> Vec<usize> {
    (0..p.len())
        .map(|i| {
            let prefix = &p[..=i];
            (0..=i).rev().find(|&k| k <= i && prefix[..k] == prefix[i + 1 - k..]).unwrap()
        })
        .collect()
}

fn next(x: &mut u64) -> u64 {
    *x ^= *x << 13;
    *x ^= *x >> 7;
    *x ^= *x << 17;
    *x
}

#[test]
fn lps_agrees_with_brute_force() {
    let mut x: u64 = 88172645463325252;
    for _ in 0..2000 {
        let len = 1 + (next(&mut x) % 12) as usize;
        let p: Vec<u8> = (0..len).map(|_| b'a' + (next(&mut x) % 2) as u8).collect();
        assert_eq!(compute_lps_array(&p), naive_lps(&p), "pattern {:?}", p);
    }
}

fn run(pattern: &[u8], chunks: &[&[u8]]) -> (bool, usize) {
    let mut m = UntilMatcher::new(pattern);
    for (i, c) in chunks.iter().enumerate() {
        match m.step(c) {
            UntilAction::Matched => return (true, i),
            UntilAction::Exhausted => return (false, i),
            UntilAction::ReadMore => {}
        }
    }
    assert_eq!(m.step(&[]), UntilAction::Exhausted);
    (false, chunks.len())
}

#[test]
fn pattern_split_across_chunks_is_found() {
    assert_eq!(run(b"abcab", &[b"xxab", b"cabyy"]), (true, 1));
    assert_eq!(run(b"ready", &[b"r", b"e", b"a", b"d", b"y"]), (true, 4));
    assert_eq!(run(b"aab", &[b"aa", b"aab"]), (true, 1));
    assert_eq!(run(b"aab", &[b"a", b"a", b"a", b"b"]), (true, 3));
}

#[test]
fn missing_pattern_reads_to_the_end() {
    assert_eq!(run(b"abc", &[b"ab", b"ab", b"cb"]), (true, 2));
    assert_eq!(run(b"abc", &[b"ab", b"ac", b"bc"]), (false, 3));
    assert_eq!(run(b"abc", &[]), (false, 0));
}

#[test]
fn empty_chunk_means_end_of_output() {
    let mut m = UntilMatcher::new(b"done");
    assert_eq!(m.step(b"do"), UntilAction::ReadMore);
    assert_eq!(m.step(b""), UntilAction::Exhausted);
}

#[test]
fn matcher_agrees_with_brute_force_for_every_chunking() {
    let mut x: u64 = 0x2545_F491_4F6C_DD1D;
    for _ in 0..3000 {
        let plen = 1 + (next(&mut x) % 4) as usize;
        let p: Vec<u8> = (0..plen).map(|_| b'a' + (next(&mut x) % 2) as u8).collect();
        let tlen = (next(&mut x) % 20) as usize;
        let t: Vec<u8> = (0..tlen).map(|_| b'a' + (next(&mut x) % 2) as u8).collect();
        let expected = t.windows(plen).any(|w| w == p.as_slice());
        let mut cuts: Vec<usize> = (0..(next(&mut x) % 5)).map(|_| (next(&mut x) as usize) % (tlen + 1)).collect();
        cuts.push(0);
        cuts.push(tlen);
        cuts.sort();
        let chunks: Vec<&[u8]> = cuts.windows(2).map(|w| &t[w[0]..w[1]]).filter(|c| !c.is_empty()).collect();
        assert_eq!(run(&p, &chunks).0, expected, "pattern {:?} text {:?} chunks {:?}", p, t, chunks);
    }
}

#[test]
fn rusage_counters_become_exact_times() {
    let usage = ResourceUsage {
        user_sec: 1,
        user_usec: 500_000,
        system_sec: 0,
        system_usec: 250,
        max_rss_kb: 2048,
    };
    let (user, system, memory) = extract_rusage_stats(&usage);
    assert_eq!(user.bits, (1_500_000i64 as f64 * 1e-6).to_bits());
    assert_eq!(system.bits, (250i64 as f64 * 1e-6).to_bits());
    assert_eq!(memory, 2 * 1024 * 1024);
}

#[test]
fn rusage_times_agree_with_floating_point() {
    let mut x: u64 = 0x0DDB_1A5E_5BAD_5EED;
    for _ in 0..20000 {
        x ^= x << 13;
        x ^= x >> 7;
        x ^= x << 17;
        let usec = (x >> (x % 64)) as i64 / 1_000_000 * if x % 3 == 0 { -1 } else { 1 };
        let usage = ResourceUsage {
            user_sec: usec / 1_000_000,
            user_usec: usec % 1_000_000,
            system_sec: 0,
            system_usec: 0,
            max_rss_kb: 0,
        };
        let (user, system, _) = extract_rusage_stats(&usage);
        let total = usage.user_sec * 1_000_000 + usage.user_usec;
        assert_eq!(user.bits, (total as f64 * 1e-6).to_bits(), "usec {}", total);
        assert_eq!(system.bits, 0f64.to_bits());
    }
}
