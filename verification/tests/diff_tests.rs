use libjp::LineDiff;

fn b(s: &str) -> Vec<u8> {
    s.as_bytes().to_vec()
}

#[test]
fn lines() {
    assert_eq!(libjp::lines(&b("")), vec![Vec::<u8>::new()]);
    assert_eq!(libjp::lines(&b("\n")), vec![b("\n")]);
    assert_eq!(libjp::lines(&b("a\nb\n")), vec![b("a\n"), b("b\n")]);
    assert_eq!(libjp::lines(&b("a\nb")), vec![b("a\n"), b("b")]);
}

#[test]
fn lines_round_trip() {
    for case in ["", "\n", "a\nb\n", "a\nb", "xy\n\nz", "\n\n"] {
        let v = b(case);
        let ls = libjp::lines(&v);
        let joined: Vec<u8> = ls.concat();
        assert_eq!(joined, v);
    }
}

fn apply_script(script: &[LineDiff], a: &[Vec<u8>], new: &[Vec<u8>]) -> Vec<Vec<u8>> {
    let mut out = Vec::new();
    for op in script {
        match op {
            LineDiff::Keep(i, _) => out.push(a[*i].clone()),
            LineDiff::New(j) => out.push(new[*j].clone()),
            LineDiff::Delete(_) => {}
        }
    }
    out
}

#[test]
fn diff_applies() {
    let cases: Vec<(&str, &str)> = vec![
        ("a\nb\nc\n", "a\nx\nc\n"),
        ("", "a\n"),
        ("a\nb\n", ""),
        ("x\ny\nz", "y\nz\nw\n"),
        ("same\n", "same\n"),
    ];
    for (old, new) in cases {
        let a = libjp::lines(&b(old));
        let bb = libjp::lines(&b(new));
        let script = libjp::diff(&a, &bb);
        assert_eq!(apply_script(&script, &a, &bb), bb);
    }
}

#[test]
fn diff_identity() {
    let a = vec![b("a\n"), b("b\n"), b("c")];
    let script = libjp::diff(&a, &a);
    assert_eq!(script.len(), 3);
    assert!(script.iter().all(|op| matches!(op, LineDiff::Keep(_, _))));
}

#[test]
fn diff_small_exact() {
    let empty: Vec<Vec<u8>> = Vec::new();
    let one = vec![b("a\n")];
    assert_eq!(libjp::diff(&empty, &one), vec![LineDiff::New(0)]);
    assert_eq!(libjp::diff(&one, &empty), vec![LineDiff::Delete(0)]);
}
