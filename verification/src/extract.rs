use vstd::prelude::*;

use crate::order::{
    lemma_sort_dedup_properties, sort_dedup, sort_dedup_spec, strictly_sorted, views,
};
use crate::urls::{resolve, spec_resolve, LinkResolutionError};

verus! {

/// The anchor href attribute values of a document, in document order, as
/// `scraper` reports them.
pub uninterp spec fn hrefs_of(body: Seq<char>) -> Seq<Seq<char>>;

/// Relies on `scraper::Html::parse_document` and `scraper::Selector`: the
/// sequence of `href` attribute values of the anchor elements of a document
/// is a function of the document text alone. The selector `"a"` is a valid
/// CSS selector, so parsing it cannot fail.
#[verifier::external_body]
fn collect_hrefs(body: &str) -> (r: Vec<String>)
    ensures
        views(r@) == hrefs_of(body@),
{
    let doc = scraper::Html::parse_document(body);
    let sel = scraper::Selector::parse("a").unwrap();
    doc.select(&sel).filter_map(|a| a.value().attr("href")).map(|h| h.to_string()).collect()
}

/// The pattern occurs somewhere in the string.
pub open spec fn contains_sub(s: Seq<char>, p: Seq<char>) -> bool {
    exists|k: int| 0 <= k && k + p.len() <= s.len() && #[trigger] s.subrange(k, k + p.len()) == p
}

/// Case-sensitive substring search.
pub fn has_substring(s: &str, p: &str) -> (r: bool)
    ensures
        r == contains_sub(s@, p@),
{
    let slen = s.unicode_len();
    let plen = p.unicode_len();
    if plen > slen {
        return false;
    }
    if plen == 0 {
        proof {
            assert(s@.subrange(0, 0 + p@.len() as int) =~= p@);
        }
        return true;
    }
    let mut k: usize = 0;
    while k <= slen - plen
        invariant
            1 <= plen <= slen,
            slen == s@.len(),
            plen == p@.len(),
            k <= slen - plen + 1,
            forall|k2: int| 0 <= k2 < k ==> #[trigger] s@.subrange(k2, k2 + p@.len()) != p@,
        decreases slen - plen + 1 - k,
    {
        let mut j: usize = 0;
        let mut matched = true;
        while j < plen
            invariant
                j <= plen,
                k + plen <= slen,
                slen == s@.len(),
                plen == p@.len(),
                matched ==> forall|j2: int| 0 <= j2 < j ==> s@[k + j2] == #[trigger] p@[j2],
                !matched ==> s@.subrange(k as int, k + p@.len()) != p@,
            decreases plen - j,
        {
            if matched {
                if s.get_char(k + j) != p.get_char(j) {
                    proof {
                        assert(s@.subrange(k as int, k + p@.len())[j as int] == s@[k + j]);
                    }
                    matched = false;
                }
            }
            j = j + 1;
        }
        if matched {
            proof {
                assert(s@.subrange(k as int, k + p@.len()) =~= p@);
            }
            return true;
        }
        k = k + 1;
    }
    assert forall|k2: int|
        !(0 <= k2 && k2 + p@.len() <= s@.len() && #[trigger] s@.subrange(k2, k2 + p@.len())
            == p@) by {
        if 0 <= k2 && k2 + p@.len() <= s@.len() {
            assert(k2 < k);
        }
    }
    false
}

/// The fixed exclusion list: hrefs whose normalized form contains one of
/// these substrings are discarded.
pub open spec fn spec_exclusions() -> Seq<Seq<char>> {
    seq!["javascript:void(0)"@, "mailto:"@]
}

/// The exclusion list, as strings.
pub fn default_exclusions() -> (r: Vec<String>)
    ensures
        views(r@) == spec_exclusions(),
{
    let mut exclusions: Vec<String> = Vec::new();
    exclusions.push(String::from_str("javascript:void(0)"));
    exclusions.push(String::from_str("mailto:"));
    proof {
        assert(views(exclusions@) =~= spec_exclusions());
    }
    exclusions
}

/// A normalized link is excluded when it contains an entry of the exclusion
/// list as a substring.
pub open spec fn excluded(s: Seq<char>) -> bool {
    contains_sub(s, "javascript:void(0)"@) || contains_sub(s, "mailto:"@)
}

/// Whether a normalized link matches the exclusion policy.
pub fn is_excluded(link: &str) -> (r: bool)
    ensures
        r == excluded(link@),
{
    has_substring(link, "javascript:void(0)") || has_substring(link, "mailto:")
}

/// The normalized forms of the hrefs, in document order: each href that
/// resolves and is not excluded contributes its normalized absolute form;
/// hrefs that fail to resolve or are excluded contribute nothing.
pub open spec fn normalized_links(base: Seq<char>, hrefs: Seq<Seq<char>>) -> Seq<Seq<char>>
    decreases hrefs.len(),
{
    if hrefs.len() == 0 {
        Seq::<Seq<char>>::empty()
    } else {
        let pre = normalized_links(base, hrefs.drop_last());
        match spec_resolve(base, hrefs.last()) {
            Some(l) => if excluded(l) {
                pre
            } else {
                pre.push(l)
            },
            None => pre,
        }
    }
}

/// The hrefs that fail to resolve against the base, in document order.
pub open spec fn dropped_hrefs(base: Seq<char>, hrefs: Seq<Seq<char>>) -> Seq<Seq<char>>
    decreases hrefs.len(),
{
    if hrefs.len() == 0 {
        Seq::<Seq<char>>::empty()
    } else {
        let pre = dropped_hrefs(base, hrefs.drop_last());
        if spec_resolve(base, hrefs.last()) is None {
            pre.push(hrefs.last())
        } else {
            pre
        }
    }
}

/// The hrefs that a sequence of per-link errors reports.
pub open spec fn error_hrefs(es: Seq<LinkResolutionError>) -> Seq<Seq<char>> {
    es.map_values(|e: LinkResolutionError| e.href@)
}

/// No normalized link of a document matches the exclusion policy, wherever
/// the offending href stands among the others.
pub proof fn lemma_normalized_not_excluded(base: Seq<char>, hrefs: Seq<Seq<char>>)
    ensures
        forall|y: Seq<char>| #[trigger] normalized_links(base, hrefs).contains(y) ==> !excluded(y),
    decreases hrefs.len(),
{
    if hrefs.len() == 0 {
    } else {
        lemma_normalized_not_excluded(base, hrefs.drop_last());
        let pre = normalized_links(base, hrefs.drop_last());
        let r = normalized_links(base, hrefs);
        assert forall|y: Seq<char>| #[trigger] r.contains(y) implies !excluded(y) by {
            let i = choose|i: int| 0 <= i < r.len() && r[i] == y;
            if i < pre.len() {
                assert(pre[i] == y);
                assert(pre.contains(y));
            }
        }
    }
}


/// A single href that fails to resolve is dropped from the extraction while
/// the remaining hrefs contribute exactly what they would without it.
pub proof fn lemma_failed_href_dropped(base: Seq<char>, hrefs: Seq<Seq<char>>, i: int)
    requires
        0 <= i < hrefs.len(),
        spec_resolve(base, hrefs[i]) is None,
    ensures
        normalized_links(base, hrefs) == normalized_links(base, hrefs.remove(i)),
    decreases hrefs.len(),
{
    if i == hrefs.len() - 1 {
        assert(hrefs.remove(i) =~= hrefs.drop_last());
    } else {
        lemma_failed_href_dropped(base, hrefs.drop_last(), i);
        assert(hrefs.remove(i).drop_last() =~= hrefs.drop_last().remove(i));
        assert(hrefs.remove(i).last() == hrefs.last());
    }
}

/// Resolves every href against the base, drops those that fail (reporting
/// each as a recoverable per-link error) and those whose normalized form is
/// excluded, and keeps the rest in document order.
pub fn normalize_links(base: &str, hrefs: &Vec<String>) -> (r: (
    Vec<String>,
    Vec<LinkResolutionError>,
))
    ensures
        views(r.0@) == normalized_links(base@, views(hrefs@)),
        error_hrefs(r.1@) == dropped_hrefs(base@, views(hrefs@)),
{
    let mut links: Vec<String> = Vec::new();
    let mut errs: Vec<LinkResolutionError> = Vec::new();
    let mut k: usize = 0;
    proof {
        assert(views(hrefs@).take(0) =~= Seq::<Seq<char>>::empty());
        assert(views(links@) =~= Seq::<Seq<char>>::empty());
        assert(error_hrefs(errs@) =~= Seq::<Seq<char>>::empty());
    }
    while k < hrefs.len()
        invariant
            k <= hrefs.len(),
            views(links@) == normalized_links(base@, views(hrefs@).take(k as int)),
            error_hrefs(errs@) == dropped_hrefs(base@, views(hrefs@).take(k as int)),
        decreases hrefs.len() - k,
    {
        let ghost pre_links = views(links@);
        let ghost pre_errs = error_hrefs(errs@);
        match resolve(base, hrefs[k].as_str()) {
            Ok(link) => {
                if !is_excluded(link.as_str()) {
                    links.push(link);
                    proof {
                        assert(views(links@) =~= pre_links.push(links@.last()@));
                    }
                }
            },
            Err(e) => {
                errs.push(e);
                proof {
                    assert(error_hrefs(errs@) =~= pre_errs.push(errs@.last().href@));
                }
            },
        }
        proof {
            let cur = views(hrefs@).take(k as int + 1);
            assert(cur.drop_last() =~= views(hrefs@).take(k as int));
            assert(cur.last() == hrefs@[k as int]@);
        }
        k = k + 1;
    }
    proof {
        assert(views(hrefs@).take(hrefs@.len() as int) =~= views(hrefs@));
    }
    (links, errs)
}

/// Turns a fetched document body into the deduplicated, lexicographically
/// sorted sequence of normalized links for one fetch, together with the
/// per-link resolution errors. No excluded link is ever in the output.
pub fn extract_links(base: &str, body: &str) -> (r: (Vec<String>, Vec<LinkResolutionError>))
    ensures
        views(r.0@) == sort_dedup_spec(normalized_links(base@, hrefs_of(body@))),
        error_hrefs(r.1@) == dropped_hrefs(base@, hrefs_of(body@)),
        strictly_sorted(views(r.0@)),
        forall|y: Seq<char>| #[trigger] views(r.0@).contains(y) ==> !excluded(y),
{
    let hrefs = collect_hrefs(body);
    let (links, errs) = normalize_links(base, &hrefs);
    let sorted = sort_dedup(&links);
    proof {
        lemma_sort_dedup_properties(normalized_links(base@, hrefs_of(body@)));
        lemma_normalized_not_excluded(base@, hrefs_of(body@));
    }
    (sorted, errs)
}

} // verus!
