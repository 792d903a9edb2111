use std::collections::HashMap;
use wiki_paths::redirects::{lookup_page, resolve_redirect, WikiPageId, WikiRedirectToResolve};

fn page(title: &str, id: u32, is_redirect: bool) -> (String, WikiPageId) {
    (title.to_string(), WikiPageId { id, is_redirect })
}

fn sample_pages() -> Vec<(String, WikiPageId)> {
    vec![
        page("Alpha", 1, true),
        page("Beta", 2, true),
        page("Gamma", 3, false),
        page("Loop One", 4, true),
        page("Loop Two", 5, true),
        page("Dangling", 6, true),
    ]
}

fn sample_redirects() -> HashMap<u32, String> {
    let mut m = HashMap::new();
    m.insert(1, "Beta".to_string());
    m.insert(2, "Gamma".to_string());
    m.insert(4, "Loop Two".to_string());
    m.insert(5, "Loop One".to_string());
    m.insert(6, "Nowhere".to_string());
    m
}

#[test]
fn chain_of_two_redirects_resolves() {
    let pages = sample_pages();
    let redirects = sample_redirects();
    let title = "Alpha".to_string();
    assert_eq!(resolve_redirect(Some(&title), &pages, &redirects), Some(3));
}

#[test]
fn one_hop_redirect_resolves() {
    let pages = sample_pages();
    let redirects = sample_redirects();
    let title = "Beta".to_string();
    assert_eq!(resolve_redirect(Some(&title), &pages, &redirects), Some(3));
}

#[test]
fn redirect_cycle_resolves_to_nothing() {
    let pages = sample_pages();
    let redirects = sample_redirects();
    let title = "Loop One".to_string();
    assert_eq!(resolve_redirect(Some(&title), &pages, &redirects), None);
}

#[test]
fn redirect_to_unknown_title_resolves_to_nothing() {
    let pages = sample_pages();
    let redirects = sample_redirects();
    let title = "Dangling".to_string();
    assert_eq!(resolve_redirect(Some(&title), &pages, &redirects), None);
}

#[test]
fn absent_title_resolves_to_nothing() {
    let pages = sample_pages();
    let redirects = sample_redirects();
    assert_eq!(resolve_redirect(None, &pages, &redirects), None);
}

#[test]
fn page_without_redirect_entry_resolves_to_nothing() {
    // Gamma is not a redirect, so the redirect table has no entry for it.
    let pages = sample_pages();
    let redirects = sample_redirects();
    let title = "Gamma".to_string();
    assert_eq!(resolve_redirect(Some(&title), &pages, &redirects), None);
}

#[test]
fn lookup_finds_first_matching_title() {
    let mut pages = sample_pages();
    pages.push(page("Alpha", 9, false));
    let title = "Alpha".to_string();
    let found = lookup_page(&pages, &title).expect("Alpha is listed");
    assert_eq!(found.id, 1);
    assert!(found.is_redirect);
    let missing = "Missing".to_string();
    assert!(lookup_page(&pages, &missing).is_none());
}

#[test]
fn pending_redirect_keeps_its_parts() {
    let pending = WikiRedirectToResolve { _from_id: 7, _to_title: "Gamma".to_string() };
    assert_eq!(pending._from_id, 7);
    assert_eq!(pending._to_title, "Gamma");
}
