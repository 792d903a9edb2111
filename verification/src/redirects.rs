//! Resolution of redirect pages to the final article they point at.
//!
//! A redirect chain is followed for at most ten hops; a chain that is
//! longer, leaves the known pages, or ends nowhere resolves to nothing.

use vstd::prelude::*;
use std::collections::HashMap;

verus! {

broadcast use vstd::std_specs::hash::group_hash_axioms;

/// A page as the ingestion boundary hands it over: its numeric id and
/// whether the page is itself a redirect.
pub struct WikiPageId {
    pub id: u32,
    pub is_redirect: bool,
}

/// A redirect whose target is itself a redirect, kept aside until the
/// target can be resolved.
pub struct WikiRedirectToResolve {
    pub _from_id: u32,
    pub _to_title: String,
}

/// The first page listed under `title`, scanning from the front.
pub open spec fn assoc_lookup(pages: Seq<(String, WikiPageId)>, title: Seq<char>) -> Option<
    WikiPageId,
>
    decreases pages.len(),
{
    if pages.len() == 0 {
        None
    } else if pages[0].0@ == title {
        Some(pages[0].1)
    } else {
        assoc_lookup(pages.drop_first(), title)
    }
}

/// Follow the redirect chain out of page `id` for at most `fuel` hops:
/// nothing if the chain leaves the redirect table or the page list, the
/// final article's id as soon as a non-redirect page is reached.
pub open spec fn resolve_from(
    pages: Seq<(String, WikiPageId)>,
    redirects: Map<u32, String>,
    id: u32,
    fuel: nat,
) -> Option<u32>
    decreases fuel,
{
    if fuel == 0 {
        None
    } else if !redirects.contains_key(id) {
        None
    } else {
        match assoc_lookup(pages, redirects[id]@) {
            None => None,
            Some(p) => if !p.is_redirect {
                Some(p.id)
            } else {
                resolve_from(pages, redirects, p.id, (fuel - 1) as nat)
            },
        }
    }
}

/// Find the first page listed under `title` at or after position `from`.
fn lookup_assoc_from(pages: &Vec<(String, WikiPageId)>, title: &String, from: usize) -> (r: Option<
    WikiPageId,
>)
    requires
        from <= pages@.len(),
    ensures
        r == assoc_lookup(pages@.skip(from as int), title@),
    decreases pages@.len() - from,
{
    if from == pages.len() {
        proof {
            assert(pages@.skip(from as int).len() == 0);
        }
        return None;
    }
    proof {
        assert(pages@.skip(from as int)[0] == pages@[from as int]);
    }
    if pages[from].0.eq(title) {
        Some(WikiPageId { id: pages[from].1.id, is_redirect: pages[from].1.is_redirect })
    } else {
        let r = lookup_assoc_from(pages, title, from + 1);
        proof {
            assert(pages@.skip(from as int).drop_first() =~= pages@.skip(from as int + 1));
        }
        r
    }
}

/// Find the first page listed under `title`.
pub fn lookup_page(pages: &Vec<(String, WikiPageId)>, title: &String) -> (r: Option<WikiPageId>)
    ensures
        r == assoc_lookup(pages@, title@),
{
    let r = lookup_assoc_from(pages, title, 0);
    proof {
        assert(pages@.skip(0) =~= pages@);
    }
    r
}

/// Follow the chain out of `id` with `fuel` hops left.
fn resolve_step(
    pages: &Vec<(String, WikiPageId)>,
    redirects: &HashMap<u32, String>,
    id: u32,
    fuel: u8,
) -> (r: Option<u32>)
    ensures
        r == resolve_from(pages@, redirects@, id, fuel as nat),
    decreases fuel,
{
    if fuel == 0 {
        return None;
    }
    let title = match redirects.get(&id) {
        Some(t) => t,
        None => {
            return None;
        },
    };
    match lookup_page(pages, title) {
        None => None,
        Some(p) => if !p.is_redirect {
            Some(p.id)
        } else {
            resolve_step(pages, redirects, p.id, fuel - 1)
        },
    }
}

/// Resolve the page named by `page_title_option` to the article its
/// redirect chain ends at, following at most ten hops. The named page
/// must be a known page; an absent name resolves to nothing.
pub fn resolve_redirect(
    page_title_option: Option<&String>,
    pages_map: &Vec<(String, WikiPageId)>,
    redirects_map: &HashMap<u32, String>,
) -> (r: Option<u32>)
    requires
        match page_title_option {
            Some(t) => assoc_lookup(pages_map@, t@) is Some,
            None => true,
        },
    ensures
        r == match page_title_option {
            None => None::<u32>,
            Some(t) => resolve_from(
                pages_map@,
                redirects_map@,
                assoc_lookup(pages_map@, t@)->Some_0.id,
                10,
            ),
        },
{
    let page_title = match page_title_option {
        Some(t) => t,
        None => {
            return None;
        },
    };
    let page = match lookup_page(pages_map, page_title) {
        Some(p) => p,
        None => {
            return None;
        },
    };
    resolve_step(pages_map, redirects_map, page.id, 10)
}

} // verus!
