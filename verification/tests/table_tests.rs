use light::dto::{Page, Proxy};
use light::table::{add_proxy, list_proxies, remove_proxy, ProxyTable};

fn rule(path: &str, url: &str) -> Proxy {
    Proxy { path: path.to_string(), url: url.to_string() }
}

fn listing(table: &ProxyTable) -> Vec<(String, String)> {
    let page = Page { size: usize::MAX, number: 0 };
    list_proxies(table, &page).into_iter().map(|p| (p.path, p.url)).collect()
}

#[test]
fn add_twice_keeps_one_entry_with_last_url() {
    let mut table = ProxyTable::new();
    add_proxy(&mut table, &rule("/a", "http://one"));
    add_proxy(&mut table, &rule("/a", "http://two"));
    let entries = listing(&table);
    let hits: Vec<&(String, String)> = entries.iter().filter(|e| e.0 == "/a").collect();
    assert_eq!(hits.len(), 1);
    assert_eq!(hits[0].1, "http://two");
}

#[test]
fn remove_of_absent_prefix_changes_nothing() {
    let mut table = ProxyTable::new();
    add_proxy(&mut table, &rule("/a", "http://one"));
    add_proxy(&mut table, &rule("/b", "http://two"));
    let before = listing(&table);
    let returned = remove_proxy(&mut table, "/nonexistent");
    assert_eq!(returned, "/nonexistent");
    let after = listing(&table);
    assert_eq!(before, after);
}

#[test]
fn remove_deletes_the_entry() {
    let mut table = ProxyTable::new();
    add_proxy(&mut table, &rule("/a", "http://one"));
    add_proxy(&mut table, &rule("/b", "http://two"));
    remove_proxy(&mut table, "/a");
    let entries = listing(&table);
    assert_eq!(entries, vec![("/b".to_string(), "http://two".to_string())]);
}

#[test]
fn listing_is_key_sorted_whatever_the_insertion_order() {
    let mut table = ProxyTable::new();
    add_proxy(&mut table, &rule("/c", "http://3"));
    add_proxy(&mut table, &rule("/a", "http://1"));
    add_proxy(&mut table, &rule("/b", "http://2"));
    let entries = listing(&table);
    let keys: Vec<&str> = entries.iter().map(|e| e.0.as_str()).collect();
    assert_eq!(keys, vec!["/a", "/b", "/c"]);
}

#[test]
fn pagination_slices_the_sorted_entries() {
    let mut table = ProxyTable::new();
    for (path, url) in [
        ("/e", "http://5"),
        ("/c", "http://3"),
        ("/a", "http://1"),
        ("/d", "http://4"),
        ("/b", "http://2"),
    ] {
        add_proxy(&mut table, &rule(path, url));
    }
    let page1 = list_proxies(&table, &Page { size: 2, number: 1 });
    let keys1: Vec<&str> = page1.iter().map(|p| p.path.as_str()).collect();
    assert_eq!(keys1, vec!["/c", "/d"]);
    let page2 = list_proxies(&table, &Page { size: 2, number: 2 });
    let keys2: Vec<&str> = page2.iter().map(|p| p.path.as_str()).collect();
    assert_eq!(keys2, vec!["/e"]);
}

#[test]
fn out_of_range_page_is_empty() {
    let mut table = ProxyTable::new();
    add_proxy(&mut table, &rule("/a", "http://1"));
    let page = list_proxies(&table, &Page { size: 2, number: 7 });
    assert!(page.is_empty());
    let empty = ProxyTable::new();
    assert!(list_proxies(&empty, &Page { size: 10, number: 0 }).is_empty());
}

#[test]
fn huge_page_number_is_empty_not_a_panic() {
    let mut table = ProxyTable::new();
    add_proxy(&mut table, &rule("/a", "http://1"));
    let page = list_proxies(&table, &Page { size: usize::MAX, number: usize::MAX });
    assert!(page.is_empty());
}
