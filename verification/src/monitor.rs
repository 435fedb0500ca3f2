use vstd::prelude::*;

use crate::extract::{dropped_hrefs, error_hrefs, extract_links, hrefs_of, normalized_links};
use crate::order::{lemma_strictly_sorted_unique, sort_dedup_spec, strictly_sorted, views};
use crate::store::{
    diff, diff_seq, lemma_concat_unique, lemma_diff_contains, lemma_diff_unique,
    lemma_second_pass_empty, unique,
};
use crate::urls::LinkResolutionError;

verus! {

/// What one fetched document contributes: its normalized links, sorted
/// lexicographically and deduplicated.
pub open spec fn extraction(target: Seq<char>, body: Seq<char>) -> Seq<Seq<char>> {
    sort_dedup_spec(normalized_links(target, hrefs_of(body)))
}

/// What one tick reports: the newly discovered links in discovery order,
/// the fetch-level error when the fetch failed, and the per-link
/// resolution errors.
pub struct TickReport {
    pub new_links: Vec<String>,
    pub fetch_error: Option<String>,
    pub link_errors: Vec<LinkResolutionError>,
}

/// The target URL together with the cumulative store of every link ever
/// reported. One value of this type is the single shared state of the
/// poller; ticks take it in turn.
pub struct Monitor {
    pub target: String,
    pub seen: Vec<String>,
}

impl Monitor {
    /// The store never holds the same link twice.
    pub open spec fn wf(self) -> bool {
        unique(views(self.seen@))
    }

    /// A monitor for the given target, with an empty store.
    pub fn new(target: String) -> (m: Monitor)
        ensures
            m.target == target,
            m.seen@.len() == 0,
            m.wf(),
    {
        Monitor { target, seen: Vec::new() }
    }

    /// One tick's work once the fetch has come back: on a fetched body,
    /// extract its links, report the ones the store has not seen, and
    /// append exactly those to the store; on a failed fetch, report the
    /// error and leave the store untouched.
    pub fn tick(&mut self, fetched: Result<String, String>) -> (r: TickReport)
        ensures
            final(self).target == old(self).target,
            old(self).wf() ==> final(self).wf(),
            (fetched matches Err(m) ==> (final(self).seen == old(self).seen
                && r.new_links@.len() == 0 && r.link_errors@.len() == 0 && (
            r.fetch_error matches Some(e) && e@ == m@))),
            (fetched matches Ok(body) ==> (views(r.new_links@) == diff_seq(
                views(old(self).seen@),
                extraction(old(self).target@, body@),
            ) && views(final(self).seen@) == views(old(self).seen@) + views(r.new_links@)
                && r.fetch_error is None && error_hrefs(r.link_errors@) == dropped_hrefs(
                old(self).target@,
                hrefs_of(body@),
            ))),
    {
        match fetched {
            Err(m) => TickReport {
                new_links: Vec::new(),
                fetch_error: Some(m),
                link_errors: Vec::new(),
            },
            Ok(body) => {
                let ghost seen0 = views(self.seen@);
                let (links, link_errors) = extract_links(self.target.as_str(), body.as_str());
                let fresh = diff(&self.seen, &links);
                let mut k: usize = 0;
                proof {
                    assert(seen0 + views(fresh@).take(0) =~= seen0);
                }
                while k < fresh.len()
                    invariant
                        k <= fresh.len(),
                        self.target == old(self).target,
                        views(self.seen@) == seen0 + views(fresh@).take(k as int),
                    decreases fresh.len() - k,
                {
                    let ghost pre = views(self.seen@);
                    self.seen.push(fresh[k].clone());
                    proof {
                        assert(views(self.seen@) =~= pre.push(self.seen@.last()@));
                        assert(seen0 + views(fresh@).take(k as int + 1) =~= pre.push(
                            views(fresh@)[k as int],
                        ));
                        assert(views(fresh@)[k as int] == fresh@[k as int]@);
                    }
                    k = k + 1;
                }
                proof {
                    assert(views(fresh@).take(fresh@.len() as int) =~= views(fresh@));
                    if unique(seen0) {
                        lemma_strictly_sorted_unique(views(links@));
                        assert(unique(views(links@)));
                        lemma_diff_unique(seen0, views(links@));
                        lemma_diff_contains(seen0, views(links@));
                        lemma_concat_unique(seen0, views(fresh@));
                    }
                }
                TickReport { new_links: fresh, fetch_error: None, link_errors }
            },
        }
    }
}

/// Running the pipeline twice against byte-identical document content
/// yields an empty diff on the second run: the first tick leaves a store
/// that already holds every link of that content's extraction.
pub proof fn lemma_tick_idempotent(seen: Seq<Seq<char>>, target: Seq<char>, body: Seq<char>)
    ensures
        diff_seq(seen + diff_seq(seen, extraction(target, body)), extraction(target, body))
            == Seq::<Seq<char>>::empty(),
{
    lemma_second_pass_empty(seen, extraction(target, body));
}

} // verus!
