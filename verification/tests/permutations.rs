use normal_diff::diff;

/// Applies a diff in normal format to `source`, as `patch --normal` does,
/// checking that each removed line is the one the diff names.
fn apply_normal_diff(source: &[u8], patch: &[u8]) -> Vec<u8> {
    let records: Vec<&[u8]> = source.split_inclusive(|&c| c == b'\n').collect();
    let lines: Vec<&[u8]> = patch.split_inclusive(|&c| c == b'\n').collect();
    let mut out: Vec<u8> = Vec::new();
    let mut cursor = 0usize;
    let mut k = 0usize;
    while k < lines.len() {
        let header = std::str::from_utf8(lines[k]).unwrap().trim_end_matches('\n');
        k += 1;
        let pos = header.find(|c| c == 'a' || c == 'd' || c == 'c').unwrap();
        let cmd = header.as_bytes()[pos];
        let parse_range = |s: &str| -> (usize, usize) {
            match s.split_once(',') {
                Some((a, b)) => (a.parse().unwrap(), b.parse().unwrap()),
                None => {
                    let a: usize = s.parse().unwrap();
                    (a, a)
                }
            }
        };
        let (l1, l2) = parse_range(&header[..pos]);
        let (r1, r2) = parse_range(&header[pos + 1..]);
        let (start, removed) = match cmd {
            b'a' => (l1, 0),
            _ => (l1 - 1, l2 - l1 + 1),
        };
        let added = match cmd {
            b'd' => 0,
            _ => r2 - r1 + 1,
        };
        assert!(cursor <= start);
        for r in &records[cursor..start] {
            out.extend_from_slice(r);
        }
        let mut old_lines: Vec<Vec<u8>> = Vec::new();
        for _ in 0..removed {
            assert!(lines[k].starts_with(b"< "));
            old_lines.push(lines[k][2..].to_vec());
            k += 1;
        }
        if k < lines.len() && lines[k].starts_with(b"\\ ") {
            old_lines.last_mut().unwrap().pop();
            k += 1;
        }
        if removed > 0 && added > 0 {
            assert_eq!(lines[k], b"---\n");
            k += 1;
        }
        let mut new_lines: Vec<Vec<u8>> = Vec::new();
        for _ in 0..added {
            assert!(lines[k].starts_with(b"> "));
            new_lines.push(lines[k][2..].to_vec());
            k += 1;
        }
        if k < lines.len() && lines[k].starts_with(b"\\ ") {
            new_lines.last_mut().unwrap().pop();
            k += 1;
        }
        for (i, l) in old_lines.iter().enumerate() {
            assert_eq!(records[start + i], &l[..]);
        }
        for l in &new_lines {
            out.extend_from_slice(l);
        }
        cursor = start + removed;
    }
    for r in &records[cursor..] {
        out.extend_from_slice(r);
    }
    out
}

fn assert_patch_restores(alef: &[u8], bet: &[u8]) {
    // The diff turns alef into bet.
    let d = diff(alef, bet);
    let patched = apply_normal_diff(alef, &d);
    assert_eq!(patched, bet, "diff was {:?}", String::from_utf8_lossy(&d));
}

#[test]
fn test_permutations() {
    // test all possible six-line files.
    for &a in &[0, 1, 2] {
        for &b in &[0, 1, 2] {
            for &c in &[0, 1, 2] {
                for &d in &[0, 1, 2] {
                    for &e in &[0, 1, 2] {
                        for &f in &[0, 1, 2] {
                            let mut alef = Vec::new();
                            let mut bet = Vec::new();
                            alef.extend_from_slice(if a == 0 { b"a\n" } else { b"b\n" });
                            if a != 2 {
                                bet.extend_from_slice(b"b\n");
                            }
                            alef.extend_from_slice(if b == 0 { b"c\n" } else { b"d\n" });
                            if b != 2 {
                                bet.extend_from_slice(b"d\n");
                            }
                            alef.extend_from_slice(if c == 0 { b"e\n" } else { b"f\n" });
                            if c != 2 {
                                bet.extend_from_slice(b"f\n");
                            }
                            alef.extend_from_slice(if d == 0 { b"g\n" } else { b"h\n" });
                            if d != 2 {
                                bet.extend_from_slice(b"h\n");
                            }
                            alef.extend_from_slice(if e == 0 { b"i\n" } else { b"j\n" });
                            if e != 2 {
                                bet.extend_from_slice(b"j\n");
                            }
                            alef.extend_from_slice(if f == 0 { b"k\n" } else { b"l\n" });
                            if f != 2 {
                                bet.extend_from_slice(b"l\n");
                            }
                            assert_patch_restores(&alef, &bet);
                        }
                    }
                }
            }
        }
    }
}

#[test]
fn test_permutations_missing_line_ending() {
    // test all possible six-line files with missing newlines.
    for &a in &[0, 1, 2] {
        for &b in &[0, 1, 2] {
            for &c in &[0, 1, 2] {
                for &d in &[0, 1, 2] {
                    for &e in &[0, 1, 2] {
                        for &f in &[0, 1, 2] {
                            for &g in &[0, 1, 2] {
                                let mut alef = Vec::new();
                                let mut bet = Vec::new();
                                alef.extend_from_slice(if a == 0 { b"a\n" } else { b"b\n" });
                                if a != 2 {
                                    bet.extend_from_slice(b"b\n");
                                }
                                alef.extend_from_slice(if b == 0 { b"c\n" } else { b"d\n" });
                                if b != 2 {
                                    bet.extend_from_slice(b"d\n");
                                }
                                alef.extend_from_slice(if c == 0 { b"e\n" } else { b"f\n" });
                                if c != 2 {
                                    bet.extend_from_slice(b"f\n");
                                }
                                alef.extend_from_slice(if d == 0 { b"g\n" } else { b"h\n" });
                                if d != 2 {
                                    bet.extend_from_slice(b"h\n");
                                }
                                alef.extend_from_slice(if e == 0 { b"i\n" } else { b"j\n" });
                                if e != 2 {
                                    bet.extend_from_slice(b"j\n");
                                }
                                alef.extend_from_slice(if f == 0 { b"k\n" } else { b"l\n" });
                                if f != 2 {
                                    bet.extend_from_slice(b"l\n");
                                }
                                match g {
                                    0 => {
                                        alef.pop();
                                    }
                                    1 => {
                                        bet.pop();
                                    }
                                    2 => {
                                        alef.pop();
                                        bet.pop();
                                    }
                                    _ => unreachable!(),
                                }
                                assert_patch_restores(&alef, &bet);
                            }
                        }
                    }
                }
            }
        }
    }
}

#[test]
fn test_permutations_empty_lines() {
    // test all possible six-line files with empty lines.
    for &a in &[0, 1, 2] {
        for &b in &[0, 1, 2] {
            for &c in &[0, 1, 2] {
                for &d in &[0, 1, 2] {
                    for &e in &[0, 1, 2] {
                        for &f in &[0, 1, 2] {
                            let mut alef = Vec::new();
                            let mut bet = Vec::new();
                            alef.extend_from_slice(if a == 0 { b"\n" } else { b"b\n" });
                            if a != 2 {
                                bet.extend_from_slice(b"b\n");
                            }
                            alef.extend_from_slice(if b == 0 { b"\n" } else { b"d\n" });
                            if b != 2 {
                                bet.extend_from_slice(b"d\n");
                            }
                            alef.extend_from_slice(if c == 0 { b"\n" } else { b"f\n" });
                            if c != 2 {
                                bet.extend_from_slice(b"f\n");
                            }
                            alef.extend_from_slice(if d == 0 { b"\n" } else { b"h\n" });
                            if d != 2 {
                                bet.extend_from_slice(b"h\n");
                            }
                            alef.extend_from_slice(if e == 0 { b"\n" } else { b"j\n" });
                            if e != 2 {
                                bet.extend_from_slice(b"j\n");
                            }
                            alef.extend_from_slice(if f == 0 { b"\n" } else { b"l\n" });
                            if f != 2 {
                                bet.extend_from_slice(b"l\n");
                            }
                            assert_patch_restores(&alef, &bet);
                        }
                    }
                }
            }
        }
    }
}

#[test]
fn test_permutations_reverse() {
    // test all possible six-line files.
    for &a in &[0, 1, 2] {
        for &b in &[0, 1, 2] {
            for &c in &[0, 1, 2] {
                for &d in &[0, 1, 2] {
                    for &e in &[0, 1, 2] {
                        for &f in &[0, 1, 2] {
                            let mut alef = Vec::new();
                            let mut bet = Vec::new();
                            alef.extend_from_slice(if a == 0 { b"a\n" } else { b"f\n" });
                            if a != 2 {
                                bet.extend_from_slice(b"a\n");
                            }
                            alef.extend_from_slice(if b == 0 { b"b\n" } else { b"e\n" });
                            if b != 2 {
                                bet.extend_from_slice(b"b\n");
                            }
                            alef.extend_from_slice(if c == 0 { b"c\n" } else { b"d\n" });
                            if c != 2 {
                                bet.extend_from_slice(b"c\n");
                            }
                            alef.extend_from_slice(if d == 0 { b"d\n" } else { b"c\n" });
                            if d != 2 {
                                bet.extend_from_slice(b"d\n");
                            }
                            alef.extend_from_slice(if e == 0 { b"e\n" } else { b"b\n" });
                            if e != 2 {
                                bet.extend_from_slice(b"e\n");
                            }
                            alef.extend_from_slice(if f == 0 { b"f\n" } else { b"a\n" });
                            if f != 2 {
                                bet.extend_from_slice(b"f\n");
                            }
                            assert_patch_restores(&alef, &bet);
                        }
                    }
                }
            }
        }
    }
}

#[test]
fn lines_that_look_like_diff_syntax() {
    assert_patch_restores(b"--- \n\\ x\n> y\n1a2\n", b"< z\n--- \n1a2\n\\");
    assert_patch_restores(b"\\ No newline at end of file", b"");
    assert_patch_restores(b"", b"---");
}
