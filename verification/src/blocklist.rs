use vstd::prelude::*;
use crate::domain::labels_of;
use crate::trie::{spec_matches, Trie};

verus! {

/// What one configured source contributed to a rebuild: the domain
/// entries its parsed list yielded, or nothing when downloading, reading
/// or parsing failed and the source was skipped.
pub enum SourceOutcome {
    Entries(Vec<String>),
    Skipped,
}

/// The entries one outcome carries; a skipped source carries none.
pub open spec fn entries_of(o: SourceOutcome) -> Seq<String> {
    match o {
        SourceOutcome::Entries(v) => v@,
        SourceOutcome::Skipped => Seq::empty(),
    }
}

/// A domain some source contributed, as its label sequence.
pub open spec fn contributed(outcomes: Seq<SourceOutcome>, d: Seq<Seq<char>>) -> bool {
    exists|s: int, k: int|
        0 <= s < outcomes.len() && 0 <= k < entries_of(outcomes[s]).len() && (#[trigger] labels_of(
            entries_of(outcomes[s])[k]@,
        )) == d
}

/// The set of domains the sources contributed.
pub open spec fn contributed_set(outcomes: Seq<SourceOutcome>) -> Set<Seq<Seq<char>>> {
    Set::new(|d: Seq<Seq<char>>| contributed(outcomes, d))
}

/// How many entries the sources contributed in all, duplicates included.
pub open spec fn entry_total(outcomes: Seq<SourceOutcome>) -> int
    decreases outcomes.len(),
{
    if outcomes.len() == 0 {
        0
    } else {
        entry_total(outcomes.drop_last()) + entries_of(outcomes.last()).len()
    }
}

proof fn lemma_entry_total_step(outcomes: Seq<SourceOutcome>, s: int)
    requires
        0 <= s < outcomes.len(),
    ensures
        entry_total(outcomes.subrange(0, s + 1)) == entry_total(outcomes.subrange(0, s))
            + entries_of(outcomes[s]).len(),
{
    let p = outcomes.subrange(0, s + 1);
    assert(p.drop_last() =~= outcomes.subrange(0, s));
    assert(p.last() == outcomes[s]);
}

proof fn lemma_entry_total_prefix(outcomes: Seq<SourceOutcome>, s: int)
    requires
        0 <= s <= outcomes.len(),
    ensures
        entry_total(outcomes.subrange(0, s)) <= entry_total(outcomes),
    decreases outcomes.len() - s,
{
    if s == outcomes.len() {
        assert(outcomes.subrange(0, s) =~= outcomes);
    } else {
        lemma_entry_total_step(outcomes, s);
        lemma_entry_total_prefix(outcomes, s + 1);
    }
}

/// What `update` publishes besides the new snapshot itself.
pub struct UpdateReport {
    /// The number of distinct blocked domains in the published snapshot.
    pub published_count: usize,
    /// Set exactly when the published snapshot is empty; the caller is
    /// expected to surface it as a warning rather than suppress the
    /// (still published) result.
    pub empty_warning: bool,
}

/// The current generation of the blocklist, rebuilt as a whole by
/// `update` and queried by `contains`.
pub struct BlockList {
    trie: Trie,
}

impl BlockList {
    /// The set of blocked domains in the current snapshot, each one as
    /// its label sequence, most-significant label first.
    pub closed spec fn domains(self) -> Set<Seq<Seq<char>>> {
        self.trie.domains()
    }

    pub closed spec fn wf(self) -> bool {
        self.trie.wf()
    }

    pub fn new() -> (b: BlockList)
        ensures
            b.wf(),
            b.domains() == Set::<Seq<Seq<char>>>::empty(),
    {
        BlockList { trie: Trie::new() }
    }

    /// Rebuild the blocklist from what the configured sources contributed,
    /// in order: every entry of every non-skipped source is inserted into a
    /// fresh private trie, the trie is compacted and swapped in as the new
    /// snapshot, and its size is reported. A skipped source contributes
    /// nothing and never aborts the rebuild; an empty result is still
    /// published, flagged by `empty_warning`.
    pub fn update(&mut self, outcomes: &Vec<SourceOutcome>) -> (report: UpdateReport)
        requires
            old(self).wf(),
        ensures
            final(self).wf(),
            forall|d: Seq<Seq<char>>|
                final(self).domains().contains(d) ==> contributed(outcomes@, d),
            entry_total(outcomes@) < usize::MAX ==> final(self).domains() == contributed_set(
                outcomes@,
            ),
            report.published_count == final(self).domains().len(),
            report.empty_warning == (report.published_count == 0),
            (forall|s: int|
                0 <= s < outcomes@.len() ==> (#[trigger] outcomes@[s]) is Skipped) ==> (final(self)
                .domains() == Set::<Seq<Seq<char>>>::empty() && report.published_count == 0
                && report.empty_warning),
    {
        let mut trie = Trie::new();
        let mut s: usize = 0;
        proof {
            assert(contributed_set(outcomes@.subrange(0, 0)) =~= Set::<Seq<Seq<char>>>::empty());
        }
        while s < outcomes.len()
            invariant
                trie.wf(),
                s <= outcomes@.len(),
                trie.domains().len() <= entry_total(outcomes@.subrange(0, s as int)),
                forall|d: Seq<Seq<char>>|
                    trie.domains().contains(d) ==> contributed(outcomes@.subrange(0, s as int), d),
                entry_total(outcomes@) < usize::MAX ==> trie.domains() == contributed_set(
                    outcomes@.subrange(0, s as int),
                ),
            decreases outcomes@.len() - s,
        {
            proof {
                lemma_entry_total_step(outcomes@, s as int);
                lemma_entry_total_prefix(outcomes@, s as int + 1);
            }
            match &outcomes[s] {
                SourceOutcome::Entries(entries) => {
                    insert_entries(&mut trie, entries, Ghost(outcomes@), Ghost(s as int));
                },
                SourceOutcome::Skipped => {
                    proof {
                        lemma_no_new_entries(outcomes@, s as int);
                    }
                },
            }
            s += 1;
        }
        proof {
            assert(outcomes@.subrange(0, outcomes@.len() as int) =~= outcomes@);
        }
        trie.shrink_to_fit();
        let count = trie.len();
        let report = UpdateReport { published_count: count, empty_warning: count == 0 };
        self.trie = trie;
        proof {
            if forall|s0: int| 0 <= s0 < outcomes@.len() ==> (#[trigger] outcomes@[s0]) is Skipped {
                assert forall|d: Seq<Seq<char>>| !self.domains().contains(d) by {
                    if contributed(outcomes@, d) {
                        let (s0, k) = choose|s0: int, k: int|
                            0 <= s0 < outcomes@.len() && 0 <= k < entries_of(outcomes@[s0]).len()
                                && labels_of(entries_of(outcomes@[s0])[k]@) == d;
                        assert(outcomes@[s0] is Skipped);
                    }
                }
                assert(self.domains() =~= Set::<Seq<Seq<char>>>::empty());
                assert(self.domains().len() == 0);
            }
        }
        report
    }

    /// Answer a membership query against the current snapshot: exact
    /// matches always count, and when `include_subdomains` is set, strict
    /// subdomains of blocked entries match as well.
    pub fn contains(&self, domain: &str, include_subdomains: bool) -> (r: bool)
        requires
            self.wf(),
        ensures
            r == spec_matches(self.domains(), labels_of(domain@), include_subdomains),
    {
        self.trie.contains(domain, include_subdomains)
    }
}

/// Extending a prefix of the sources by one that carries no entries
/// contributes nothing new.
proof fn lemma_no_new_entries(outcomes: Seq<SourceOutcome>, s: int)
    requires
        0 <= s < outcomes.len(),
        entries_of(outcomes[s]).len() == 0,
    ensures
        forall|d: Seq<Seq<char>>|
            contributed(outcomes.subrange(0, s + 1), d) == contributed(outcomes.subrange(0, s), d),
        contributed_set(outcomes.subrange(0, s + 1)) == contributed_set(outcomes.subrange(0, s)),
{
    let p0 = outcomes.subrange(0, s);
    let p1 = outcomes.subrange(0, s + 1);
    assert forall|d: Seq<Seq<char>>|
        contributed(p1, d) == contributed(p0, d) by {
        if contributed(p1, d) {
            let (s0, k) = choose|s0: int, k: int|
                0 <= s0 < p1.len() && 0 <= k < entries_of(p1[s0]).len() && labels_of(
                    entries_of(p1[s0])[k]@,
                ) == d;
            assert(s0 < s);
            assert(p0[s0] == p1[s0]);
            assert(0 <= k < entries_of(p0[s0]).len() && labels_of(entries_of(p0[s0])[k]@) == d);
        }
        if contributed(p0, d) {
            let (s0, k) = choose|s0: int, k: int|
                0 <= s0 < p0.len() && 0 <= k < entries_of(p0[s0]).len() && labels_of(
                    entries_of(p0[s0])[k]@,
                ) == d;
            assert(p1[s0] == p0[s0]);
            assert(0 <= k < entries_of(p1[s0]).len() && labels_of(entries_of(p1[s0])[k]@) == d);
        }
    }
    assert(contributed_set(p1) =~= contributed_set(p0));
}

/// One of the first `k` entries names this domain.
spec fn among_first(entries: Seq<String>, k: int, d: Seq<Seq<char>>) -> bool {
    exists|j: int| 0 <= j < k && (#[trigger] labels_of(entries[j]@)) == d
}

proof fn lemma_among_first_step(entries: Seq<String>, k: int, d: Seq<Seq<char>>)
    requires
        0 <= k < entries.len(),
    ensures
        among_first(entries, k + 1, d) <==> (among_first(entries, k, d) || d == labels_of(
            entries[k]@,
        )),
{
    if among_first(entries, k + 1, d) {
        let j = choose|j: int| 0 <= j < k + 1 && (#[trigger] labels_of(entries[j]@)) == d;
        if j < k {
            assert(among_first(entries, k, d));
        }
    }
    if among_first(entries, k, d) {
        let j = choose|j: int| 0 <= j < k && (#[trigger] labels_of(entries[j]@)) == d;
        assert(0 <= j < k + 1 && labels_of(entries[j]@) == d);
    }
    if d == labels_of(entries[k]@) {
        assert(0 <= k < k + 1 && labels_of(entries[k]@) == d);
    }
}

/// Insert every entry one source contributed into the trie being built.
fn insert_entries(
    trie: &mut Trie,
    entries: &Vec<String>,
    Ghost(outcomes): Ghost<Seq<SourceOutcome>>,
    Ghost(s): Ghost<int>,
)
    requires
        old(trie).wf(),
        0 <= s < outcomes.len(),
        entries_of(outcomes[s]) == entries@,
        old(trie).domains().len() <= entry_total(outcomes.subrange(0, s)),
        forall|d: Seq<Seq<char>>|
            old(trie).domains().contains(d) ==> contributed(outcomes.subrange(0, s), d),
        entry_total(outcomes) < usize::MAX ==> old(trie).domains() == contributed_set(
            outcomes.subrange(0, s),
        ),
        entry_total(outcomes.subrange(0, s + 1)) == entry_total(outcomes.subrange(0, s))
            + entries@.len(),
        entry_total(outcomes.subrange(0, s + 1)) <= entry_total(outcomes),
    ensures
        final(trie).wf(),
        final(trie).domains().len() <= entry_total(outcomes.subrange(0, s + 1)),
        forall|d: Seq<Seq<char>>|
            final(trie).domains().contains(d) ==> contributed(outcomes.subrange(0, s + 1), d),
        entry_total(outcomes) < usize::MAX ==> final(trie).domains() == contributed_set(
            outcomes.subrange(0, s + 1),
        ),
{
    let ghost p0 = outcomes.subrange(0, s);
    let ghost p1 = outcomes.subrange(0, s + 1);
    let mut k: usize = 0;
    while k < entries.len()
        invariant
            trie.wf(),
            k <= entries@.len(),
            0 <= s < outcomes.len(),
            p0 == outcomes.subrange(0, s),
            p1 == outcomes.subrange(0, s + 1),
            entries_of(outcomes[s]) == entries@,
            entry_total(p1) == entry_total(p0) + entries@.len(),
            entry_total(p1) <= entry_total(outcomes),
            trie.domains().len() <= entry_total(p0) + k,
            forall|d: Seq<Seq<char>>|
                #[trigger] trie.domains().contains(d) ==> (contributed(p0, d) || among_first(
                    entries@,
                    k as int,
                    d,
                )),
            entry_total(outcomes) < usize::MAX ==> forall|d: Seq<Seq<char>>|
                #[trigger] trie.domains().contains(d) <==> (contributed(p0, d) || among_first(
                    entries@,
                    k as int,
                    d,
                )),
        decreases entries@.len() - k,
    {
        proof {
            lemma_entry_total_prefix(outcomes, s);
        }
        let ghost pre = trie.domains();
        let ghost lab = labels_of(entries@[k as int]@);
        proof {
            trie.lemma_domains_finite();
            assert forall|d: Seq<Seq<char>>|
                among_first(entries@, k + 1, d) <==> (among_first(entries@, k as int, d) || d
                    == lab) by {
                lemma_among_first_step(entries@, k as int, d);
            }
        }
        if trie.len() < usize::MAX {
            trie.insert(entries[k].as_str());
            proof {
                assert(trie.domains() == pre.insert(lab));
                if pre.contains(lab) {
                    assert(trie.domains() =~= pre);
                }
                assert forall|d: Seq<Seq<char>>|
                    #[trigger] trie.domains().contains(d) ==> (pre.contains(d) || d == lab) by {}
                if entry_total(outcomes) < usize::MAX {
                    assert forall|d: Seq<Seq<char>>|
                        #[trigger] trie.domains().contains(d) <==> (contributed(p0, d)
                            || among_first(entries@, k + 1, d)) by {
                        assert(trie.domains().contains(d) <==> (pre.contains(d) || d == lab));
                        assert(pre.contains(d) <==> (contributed(p0, d) || among_first(
                            entries@,
                            k as int,
                            d,
                        )));
                    }
                }
            }
        } else {
            proof {
                assert(entry_total(outcomes) >= usize::MAX);
            }
        }
        k += 1;
    }
    proof {
        // every entry of this source is an entry of the extended prefix,
        // and the extended prefix adds nothing beyond the shorter one
        assert forall|d: Seq<Seq<char>>|
            (contributed(p0, d) || among_first(entries@, entries@.len() as int, d)) <==> contributed(
            p1,
            d,
        ) by {
            if contributed(p0, d) {
                let (s0, j) = choose|s0: int, j: int|
                    0 <= s0 < p0.len() && 0 <= j < entries_of(p0[s0]).len() && labels_of(
                        entries_of(p0[s0])[j]@,
                    ) == d;
                assert(p1[s0] == p0[s0]);
                assert(0 <= j < entries_of(p1[s0]).len() && labels_of(entries_of(p1[s0])[j]@) == d);
            }
            if among_first(entries@, entries@.len() as int, d) {
                let j = choose|j: int|
                    0 <= j < entries@.len() && (#[trigger] labels_of(entries@[j]@)) == d;
                assert(p1[s] == outcomes[s]);
                assert(0 <= j < entries_of(p1[s]).len() && labels_of(entries_of(p1[s])[j]@) == d);
            }
            if contributed(p1, d) {
                let (s0, j) = choose|s0: int, j: int|
                    0 <= s0 < p1.len() && 0 <= j < entries_of(p1[s0]).len() && labels_of(
                        entries_of(p1[s0])[j]@,
                    ) == d;
                if s0 < s {
                    assert(p0[s0] == p1[s0]);
                    assert(0 <= j < entries_of(p0[s0]).len() && labels_of(
                        entries_of(p0[s0])[j]@,
                    ) == d);
                } else {
                    assert(p1[s0] == outcomes[s]);
                    assert(labels_of(entries@[j]@) == d);
                    assert(among_first(entries@, entries@.len() as int, d));
                }
            }
        }
        if entry_total(outcomes) < usize::MAX {
            assert(trie.domains() =~= contributed_set(p1));
        }
    }
}

} // verus!
