//! Application entries and the catalog: the ordered collection of parsed,
//! filtered entries, kept in case-insensitive lexicographic order by name.

use vstd::prelude::*;

use crate::bytes::{le_bytes, lower_seq, seq_le, to_lower};
use crate::bytes::{lemma_seq_le_total, lemma_seq_le_trans};

verus! {

/// Spec-level model of one application entry.
pub struct AppData {
    pub name: Seq<u8>,
    pub command: Seq<u8>,
    pub icon: Option<Seq<u8>>,
    pub categories: Seq<Seq<u8>>,
}

/// One installable application, as drawn from a descriptor file.
pub struct ApplicationEntry {
    /// Display name; never empty (a placeholder stands in when the
    /// descriptor gives none).
    pub name: Vec<u8>,
    /// Raw launch command line, placeholder tokens included.
    pub command: Vec<u8>,
    /// Icon identifier, when the descriptor declares one.
    pub icon: Option<Vec<u8>>,
    /// Category tags in declaration order.
    pub categories: Vec<Vec<u8>>,
}

impl View for ApplicationEntry {
    type V = AppData;

    open spec fn view(&self) -> AppData {
        AppData {
            name: self.name@,
            command: self.command@,
            icon: self.icon.deep_view(),
            categories: self.categories.deep_view(),
        }
    }
}

impl DeepView for ApplicationEntry {
    type V = AppData;

    open spec fn deep_view(&self) -> AppData {
        self.view()
    }
}

/// A well-formed entry has a nonempty display name.
pub open spec fn entry_wf(d: AppData) -> bool {
    d.name.len() > 0
}

/// The first `k` entries stand in case-insensitive non-decreasing
/// lexicographic order by name.
pub open spec fn sorted_below(s: Seq<AppData>, k: int) -> bool {
    forall|a: int, b: int|
        0 <= a < b < k ==> seq_le(lower_seq(s[a].name), lower_seq(s[b].name))
}

/// Entries stand in case-insensitive non-decreasing lexicographic order by name.
pub open spec fn entries_sorted(s: Seq<AppData>) -> bool {
    sorted_below(s, s.len() as int)
}

/// The full ordered collection of parsed, filtered application entries.
/// Immutable after construction; a refresh builds a whole new catalog.
pub struct Catalog {
    pub entries: Vec<ApplicationEntry>,
}

impl View for Catalog {
    type V = Seq<AppData>;

    open spec fn view(&self) -> Seq<AppData> {
        self.entries.deep_view()
    }
}

impl Catalog {
    /// Entries are name-sorted (case-insensitively) and each is well formed.
    pub open spec fn wf(&self) -> bool {
        entries_sorted(self@) && forall|k: int| 0 <= k < self@.len() ==> entry_wf(self@[k])
    }

    /// Number of entries.
    pub fn len(&self) -> (n: usize)
        ensures
            n == self@.len(),
    {
        self.entries.len()
    }

    /// The entry at a position.
    pub fn get(&self, i: usize) -> (e: &ApplicationEntry)
        requires
            i < self@.len(),
        ensures
            e@ == self@[i as int],
    {
        &self.entries[i]
    }
}

/// Case-insensitive lexicographic comparison of two names.
pub fn le_name(a: &Vec<u8>, b: &Vec<u8>) -> (r: bool)
    ensures
        r == seq_le(lower_seq(a@), lower_seq(b@)),
{
    let la = to_lower(a);
    let lb = to_lower(b);
    le_bytes(&la, &lb)
}

/// Sort entries by name, case-insensitively; the collection of entries is
/// kept exactly (duplicates included).
pub fn sort_entries(entries: &mut Vec<ApplicationEntry>)
    ensures
        final(entries).deep_view().to_multiset() == old(entries).deep_view().to_multiset(),
        entries_sorted(final(entries).deep_view()),
{
    let ghost orig = entries.deep_view().to_multiset();
    let n = entries.len();
    if n <= 1 {
        proof {
            broadcast use vstd::seq_lib::group_to_multiset_ensures;

        }
        return;
    }
    let mut i: usize = 1;
    while i < n
        invariant
            1 <= i <= n,
            entries.len() == n,
            entries.deep_view().to_multiset() == orig,
            sorted_below(entries.deep_view(), i as int),
        decreases n - i,
    {
        let ghost dv0 = entries.deep_view();
        let mut p: usize = i;
        loop
            invariant
                p <= i,
                i < n,
                entries.len() == n,
                entries.deep_view() == dv0,
                forall|m: int|
                    p <= m < i ==> seq_le(
                        lower_seq(dv0[i as int].name),
                        lower_seq(dv0[m].name),
                    ),
            ensures
                p <= i,
                entries.len() == n,
                entries.deep_view() == dv0,
                forall|m: int|
                    p <= m < i ==> seq_le(
                        lower_seq(dv0[i as int].name),
                        lower_seq(dv0[m].name),
                    ),
                p == 0 || seq_le(lower_seq(dv0[p - 1].name), lower_seq(dv0[i as int].name)),
            decreases p,
        {
            if p == 0 {
                break;
            }
            let keeps = le_name(&entries[p - 1].name, &entries[i].name);
            if keeps {
                break;
            }
            proof {
                lemma_seq_le_total(
                    lower_seq(dv0[p - 1].name),
                    lower_seq(dv0[i as int].name),
                );
            }
            p = p - 1;
        }
        proof {
            assert forall|m: int| 0 <= m < p implies seq_le(
                lower_seq(dv0[m].name),
                lower_seq(dv0[i as int].name),
            ) by {
                assert(p > 0);
                if m < p - 1 {
                    lemma_seq_le_trans(
                        lower_seq(dv0[m].name),
                        lower_seq(dv0[p - 1].name),
                        lower_seq(dv0[i as int].name),
                    );
                }
            }
        }
        let e = entries.remove(i);
        entries.insert(p, e);
        proof {
            broadcast use vstd::seq_lib::group_to_multiset_ensures;

            let dv1 = entries.deep_view();
            assert(dv1 =~~= dv0.remove(i as int).insert(p as int, dv0[i as int]));
            assert(dv0.to_multiset().count(dv0[i as int]) > 0);
            assert(dv1.to_multiset() =~= dv0.to_multiset());
            assert forall|a: int, b: int| 0 <= a < b < i + 1 implies seq_le(
                lower_seq(dv1[a].name),
                lower_seq(dv1[b].name),
            ) by {
                if a < p {
                    assert(dv1[a] == dv0[a]);
                } else if a == p {
                    assert(dv1[a] == dv0[i as int]);
                } else {
                    assert(dv1[a] == dv0[a - 1]);
                }
                if b < p {
                    assert(dv1[b] == dv0[b]);
                } else if b == p {
                    assert(dv1[b] == dv0[i as int]);
                } else {
                    assert(dv1[b] == dv0[b - 1]);
                }
                if b < p {
                    assert(seq_le(lower_seq(dv0[a].name), lower_seq(dv0[b].name)));
                } else if b == p {
                    assert(seq_le(lower_seq(dv0[a].name), lower_seq(dv0[i as int].name)));
                } else {
                    if a < p {
                        assert(a < b - 1);
                        assert(seq_le(lower_seq(dv0[a].name), lower_seq(dv0[b - 1].name)));
                    } else if a == p {
                        assert(seq_le(
                            lower_seq(dv0[i as int].name),
                            lower_seq(dv0[b - 1].name),
                        ));
                    } else {
                        assert(seq_le(
                            lower_seq(dv0[a - 1].name),
                            lower_seq(dv0[b - 1].name),
                        ));
                    }
                }
            }
            assert(sorted_below(dv1, i as int + 1));
        }
        i = i + 1;
    }
}

} // verus!
