use wyag::log::{log_label, short_digest, LogWalk};

fn parents_of(d: &str) -> Vec<String> {
    // a diamond: a's two parents b and c reconverge on the shared ancestor d
    match d {
        "a" => vec!["b".to_string(), "c".to_string()],
        "b" => vec!["d".to_string()],
        "c" => vec!["d".to_string()],
        "d" => Vec::new(),
        other => panic!("unexpected digest {}", other),
    }
}

#[test]
fn diamond_visited_exactly_once() {
    let mut walk = LogWalk::new("a".to_string());
    let mut visited: Vec<String> = Vec::new();
    while let Some(d) = walk.next_pending() {
        visited.push(d.clone());
        let ps = parents_of(d.as_str());
        walk.push_parents(&ps);
    }
    assert_eq!(visited.len(), 4);
    let mut sorted = visited.clone();
    sorted.sort();
    assert_eq!(sorted, vec!["a", "b", "c", "d"]);
}

#[test]
fn cycle_terminates() {
    // even a cyclic graph cannot make the walk revisit anything
    let mut walk = LogWalk::new("x".to_string());
    let mut count = 0;
    while let Some(d) = walk.next_pending() {
        count += 1;
        let ps = if d == "x" {
            vec!["y".to_string()]
        } else {
            vec!["x".to_string()]
        };
        walk.push_parents(&ps);
    }
    assert_eq!(count, 2);
}

#[test]
fn label_escapes_first_line() {
    let label = log_label("say \"hi\" \\ there\nsecond line");
    assert_eq!(label, b"say \\\"hi\\\" \\\\ there".to_vec());
}

#[test]
fn label_of_single_line() {
    assert_eq!(log_label("plain"), b"plain".to_vec());
}

#[test]
fn short_digest_prefix() {
    assert_eq!(
        short_digest("2aae6c35c94fcfb415dbe95f408b9ce91ee846ed"),
        Some("2aae6c35".to_string())
    );
    assert_eq!(short_digest("abc"), None);
}
