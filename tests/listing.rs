use yadex::listing::{entry_link, sort_entries, sort_keyed, DirEntryInfo, Enumeration, RawEntry};

fn raw(name: &str, is_dir: bool) -> RawEntry {
    RawEntry { name: name.to_string(), is_dir, size: 7, mtime: 100 }
}

fn names(v: &[DirEntryInfo]) -> Vec<String> {
    v.iter().map(|e| e.name.clone()).collect()
}

fn collect(dir: &str, limit: usize, raws: Vec<RawEntry>) -> (Vec<String>, bool) {
    let mut en = Enumeration::new(dir.to_string(), limit);
    for r in raws {
        if !en.wants_more() {
            break;
        }
        en.offer(r);
    }
    let page = en.finish();
    (names(&page.entry), page.maybe_truncated)
}

#[test]
fn listing_hides_dot_entries_and_orders() {
    let mut en = Enumeration::new("./sub".to_string(), usize::MAX);
    en.offer(raw("b.txt", false));
    en.offer(raw("A", true));
    en.offer(raw(".hidden", false));
    let page = en.finish();
    assert_eq!(names(&page.entry), vec!["A", "b.txt"]);
    assert_eq!(page.entry[0].href, "/sub/A/");
    assert_eq!(page.entry[1].href, "/sub/b.txt");
    assert_eq!(page.entry[1].size, 7);
    assert_eq!(page.entry[1].datetime, 100);
    assert!(!page.maybe_truncated);
    assert_eq!(page.cwd, "sub");
}

#[test]
fn truncation_signal() {
    let three = vec![raw("a", false), raw("b", false), raw("c", false)];
    let (n, t) = collect(".", 2, three);
    assert_eq!(n.len(), 2);
    assert!(t);
    let (n, t) = collect(".", 3, vec![raw("a", false), raw("b", false), raw("c", false)]);
    assert_eq!(n.len(), 3);
    assert!(t);
    let (n, t) = collect(".", 4, vec![raw("a", false), raw("b", false), raw("c", false)]);
    assert_eq!(n.len(), 3);
    assert!(!t);
}

#[test]
fn hidden_entries_do_not_count_toward_limit() {
    let raws = vec![raw(".x", false), raw("a", false), raw(".y", true), raw("b", false)];
    let (n, t) = collect(".", 2, raws);
    assert_eq!(n, vec!["a", "b"]);
    assert!(t);
}

#[test]
fn full_listing_reads_no_more() {
    let mut en = Enumeration::new(".".to_string(), 1);
    assert!(en.wants_more());
    en.offer(raw("a", false));
    assert!(!en.wants_more());
    en.offer(raw("b", false));
    assert_eq!(names(&en.finish().entry), vec!["a"]);
}

#[test]
fn sort_puts_directories_first_case_insensitively() {
    let mk = |n: &str, d: bool| DirEntryInfo {
        name: n.to_string(),
        is_dir: d,
        size: 0,
        href: String::new(),
        datetime: 0,
    };
    let v = vec![mk("b", false), mk("A", false), mk("c", true), mk("B", true), mk("a", false)];
    assert_eq!(names(&sort_entries(v)), vec!["B", "c", "A", "a", "b"]);
    assert!(sort_entries(Vec::new()).is_empty());
}

#[test]
fn entry_links() {
    assert_eq!(entry_link("./sub", "x y", true), "/sub/x%20y/");
    assert_eq!(entry_link(".", "f.txt", false), "/f.txt");
}

#[test]
fn keyed_sort_orders_by_given_keys() {
    let mk = |k: &str, n: &str, d: bool| {
        (
            k.chars().collect::<Vec<char>>(),
            DirEntryInfo { name: n.to_string(), is_dir: d, size: 0, href: String::new(), datetime: 0 },
        )
    };
    let v = vec![mk("z", "one", false), mk("a", "two", false), mk("m", "three", true), mk("a", "four", false)];
    let order: Vec<String> = sort_keyed(v).into_iter().map(|(_, e)| e.name).collect();
    assert_eq!(order, vec!["three", "two", "four", "one"]);
}

fn file(n: &str) -> DirEntryInfo {
    DirEntryInfo { name: n.to_string(), is_dir: false, size: 0, href: String::new(), datetime: 0 }
}

#[test]
fn sort_ignores_case() {
    assert_eq!(names(&sort_entries(vec![file("C"), file("b")])), vec!["b", "C"]);
    assert_eq!(names(&sort_entries(vec![file("Zeta"), file("alpha"), file("Beta")])), vec!["alpha", "Beta", "Zeta"]);
}

#[test]
fn sort_keeps_order_of_equal_keys() {
    assert_eq!(names(&sort_entries(vec![file("a"), file("A")])), vec!["a", "A"]);
    assert_eq!(names(&sort_entries(vec![file("A"), file("a")])), vec!["A", "a"]);
}
