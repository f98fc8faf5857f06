use things_report::emoji::{keep_first, lines_of, pick};

fn strings(list: &[&str]) -> Vec<String> {
    list.iter().map(|t| t.to_string()).collect()
}

#[test]
fn a_list_has_one_emoji_on_each_line() {
    assert_eq!(lines_of(":tada:\n:rocket:\n:star:"), strings(&[":tada:", ":rocket:", ":star:"]));
    assert_eq!(lines_of(":tada:\n"), strings(&[":tada:", ""]));
    assert_eq!(lines_of(""), strings(&[""]));
}

#[test]
fn keeping_the_first_few_keeps_them_in_order() {
    let all = strings(&["a", "b", "c"]);
    assert_eq!(keep_first(all.clone(), 2), strings(&["a", "b"]));
    assert_eq!(keep_first(all.clone(), 0), strings(&[]));
    assert_eq!(keep_first(all.clone(), 3), all);
    assert_eq!(keep_first(all.clone(), 9), all);
}

#[test]
fn a_pick_draws_distinct_lines_of_the_list() {
    let list = ":a:\n:b:\n:c:\n:d:\n:e:";
    for _ in 0..20 {
        let picked = pick(list, 3);
        assert_eq!(picked.len(), 3);
        for p in &picked {
            assert!(list.split('\n').any(|l| l == p));
        }
        assert_ne!(picked[0], picked[1]);
        assert_ne!(picked[0], picked[2]);
        assert_ne!(picked[1], picked[2]);
    }
}

#[test]
fn a_pick_of_more_than_the_list_holds_gives_the_whole_list() {
    let mut picked = pick(":a:\n:b:\n:c:", 10);
    picked.sort();
    assert_eq!(picked, strings(&[":a:", ":b:", ":c:"]));
    assert!(pick(":a:\n:b:", 0).is_empty());
}

#[test]
fn a_pick_comes_in_a_random_order() {
    let lines: Vec<String> = (0..40).map(|i| format!(":e{}:", i)).collect();
    let list = lines.join("\n");
    let mut moved = false;
    for _ in 0..5 {
        if pick(&list, 40) != lines {
            moved = true;
        }
    }
    assert!(moved);
}
