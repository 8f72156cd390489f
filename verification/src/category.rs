//! The categorizer: mapping a catalog to category buckets under one of two
//! policies. The single-bucket policy places each entry into the first of
//! its declared categories that a fixed priority table translates, with a
//! catch-all `Other` bucket; the multi-bucket policy places each entry into
//! every raw tag it declares, with `Other` for entries declaring none.
//! Buckets keep catalog order; the whole transform is pure and
//! deterministic.

use vstd::prelude::*;

use crate::bytes::{bytes_eq, copy_parts};
use crate::catalog::{AppData, ApplicationEntry, Catalog};
use crate::search::capped;

verus! {

/// The raw `Utility` tag.
pub open spec fn utility_tag() -> Seq<u8> {
    seq![85, 116, 105, 108, 105, 116, 121]
}
/// The raw `Development` tag.
pub open spec fn development_tag() -> Seq<u8> {
    seq![68, 101, 118, 101, 108, 111, 112, 109, 101, 110, 116]
}
/// The raw `Graphics` tag.
pub open spec fn graphics_tag() -> Seq<u8> {
    seq![71, 114, 97, 112, 104, 105, 99, 115]
}
/// The raw `Network` tag.
pub open spec fn network_tag() -> Seq<u8> {
    seq![78, 101, 116, 119, 111, 114, 107]
}
/// The raw `Office` tag.
pub open spec fn office_tag() -> Seq<u8> {
    seq![79, 102, 102, 105, 99, 101]
}
/// The raw `AudioVideo` tag.
pub open spec fn audio_video_tag() -> Seq<u8> {
    seq![65, 117, 100, 105, 111, 86, 105, 100, 101, 111]
}
/// The raw `System` tag.
pub open spec fn system_tag() -> Seq<u8> {
    seq![83, 121, 115, 116, 101, 109]
}
/// The raw `Game` tag.
pub open spec fn game_tag() -> Seq<u8> {
    seq![71, 97, 109, 101]
}
/// The raw `Settings` tag.
pub open spec fn settings_tag() -> Seq<u8> {
    seq![83, 101, 116, 116, 105, 110, 103, 115]
}
/// The `Utilities` display label.
pub open spec fn utilities_label() -> Seq<u8> {
    seq![85, 116, 105, 108, 105, 116, 105, 101, 115]
}
/// The `Development` display label.
pub open spec fn development_label() -> Seq<u8> {
    seq![68, 101, 118, 101, 108, 111, 112, 109, 101, 110, 116]
}
/// The `Graphics` display label.
pub open spec fn graphics_label() -> Seq<u8> {
    seq![71, 114, 97, 112, 104, 105, 99, 115]
}
/// The `Internet` display label.
pub open spec fn internet_label() -> Seq<u8> {
    seq![73, 110, 116, 101, 114, 110, 101, 116]
}
/// The `Office` display label.
pub open spec fn office_label() -> Seq<u8> {
    seq![79, 102, 102, 105, 99, 101]
}
/// The `Multimedia` display label.
pub open spec fn multimedia_label() -> Seq<u8> {
    seq![77, 117, 108, 116, 105, 109, 101, 100, 105, 97]
}
/// The `System` display label.
pub open spec fn system_label() -> Seq<u8> {
    seq![83, 121, 115, 116, 101, 109]
}
/// The `Games` display label.
pub open spec fn games_label() -> Seq<u8> {
    seq![71, 97, 109, 101, 115]
}
/// The `Preferences` display label.
pub open spec fn preferences_label() -> Seq<u8> {
    seq![80, 114, 101, 102, 101, 114, 101, 110, 99, 101, 115]
}
/// The catch-all `Other` bucket label.
pub open spec fn other_label() -> Seq<u8> {
    seq![79, 116, 104, 101, 114]
}

/// The single-bucket priority table as an ordered translation: the first
/// declared tag with a translation decides the bucket.
pub open spec fn translate(tag: Seq<u8>) -> Option<Seq<u8>> {
    if tag == utility_tag() {
        Some(utilities_label())
    } else if tag == development_tag() {
        Some(development_label())
    } else if tag == graphics_tag() {
        Some(graphics_label())
    } else if tag == network_tag() {
        Some(internet_label())
    } else if tag == office_tag() {
        Some(office_label())
    } else if tag == audio_video_tag() {
        Some(multimedia_label())
    } else if tag == system_tag() {
        Some(system_label())
    } else if tag == game_tag() {
        Some(games_label())
    } else if tag == settings_tag() {
        Some(preferences_label())
    } else {
        None
    }
}

/// Bucket labels of the single-bucket policy, in display order; `Other`
/// stands last.
pub open spec fn display_labels() -> Seq<Seq<u8>> {
    seq![utilities_label(), development_label(), graphics_label(), internet_label(), office_label(), multimedia_label(), system_label(), games_label(), preferences_label(), other_label()]
}

/// The single bucket an entry's declared categories select: the first
/// declared tag the table translates, else `Other`.
pub open spec fn single_label_from(cats: Seq<Seq<u8>>) -> Seq<u8>
    decreases cats.len(),
{
    if cats.len() == 0 {
        other_label()
    } else {
        match translate(cats[0]) {
            Some(l) => l,
            None => single_label_from(cats.drop_first()),
        }
    }
}

/// Indices among the first `n` entries whose single-policy label is exactly
/// this label, in catalog order.
pub open spec fn single_members(es: Seq<AppData>, label: Seq<u8>, n: int) -> Seq<int>
    decreases n,
{
    if n <= 0 {
        Seq::empty()
    } else {
        single_members(es, label, n - 1) + if single_label_from(es[n - 1].categories) == label {
            seq![n - 1]
        } else {
            Seq::<int>::empty()
        }
    }
}

/// The tags an entry carries under the multi-bucket policy: its declared
/// categories, or `Other` alone when it declares none.
pub open spec fn eff_tags(d: AppData) -> Seq<Seq<u8>> {
    if d.categories.len() == 0 {
        seq![other_label()]
    } else {
        d.categories
    }
}

/// The positions an entry occupies in one label's bucket: one occurrence
/// per declared tag equal to the label.
pub open spec fn label_reps(i: int, tags: Seq<Seq<u8>>, label: Seq<u8>) -> Seq<int>
    decreases tags.len(),
{
    if tags.len() == 0 {
        Seq::empty()
    } else {
        label_reps(i, tags.drop_last(), label) + if tags.last() == label {
            seq![i]
        } else {
            Seq::<int>::empty()
        }
    }
}

/// Members of one label's bucket under the multi-bucket policy, among the
/// first `n` entries, in catalog order.
pub open spec fn multi_members(es: Seq<AppData>, label: Seq<u8>, n: int) -> Seq<int>
    decreases n,
{
    if n <= 0 {
        Seq::empty()
    } else {
        multi_members(es, label, n - 1) + label_reps(n - 1, eff_tags(es[n - 1]), label)
    }
}

/// Fold new tags into a list of labels seen so far, keeping first-appearance
/// order.
pub open spec fn add_new(seen: Seq<Seq<u8>>, tags: Seq<Seq<u8>>) -> Seq<Seq<u8>>
    decreases tags.len(),
{
    if tags.len() == 0 {
        seen
    } else {
        add_new(
            if seen.contains(tags[0]) {
                seen
            } else {
                seen.push(tags[0])
            },
            tags.drop_first(),
        )
    }
}

/// Bucket labels of the multi-bucket policy: every tag that occurs, in
/// first-appearance order over the first `n` entries.
pub open spec fn multi_labels(es: Seq<AppData>, n: int) -> Seq<Seq<u8>>
    decreases n,
{
    if n <= 0 {
        Seq::empty()
    } else {
        add_new(multi_labels(es, n - 1), eff_tags(es[n - 1]))
    }
}

/// One category bucket: a label and the catalog indices of its entries.
pub struct CategoryBucket {
    /// The bucket's label: a display label under the single-bucket policy,
    /// a raw tag (or `Other`) under the multi-bucket policy.
    pub label: Vec<u8>,
    /// Catalog indices of the bucket's entries, in catalog order.
    pub members: Vec<usize>,
}

/// The category index: buckets derived from one catalog, never mutated
/// independently of it.
pub struct CategoryIndex {
    pub buckets: Vec<CategoryBucket>,
}

impl CategoryIndex {
    /// The bucket labels, in bucket order.
    pub open spec fn labels(&self) -> Seq<Seq<u8>> {
        Seq::new(self.buckets@.len(), |k: int| self.buckets@[k].label@)
    }

    /// The members of one bucket, as catalog positions.
    pub open spec fn members_view(&self, k: int) -> Seq<int> {
        self.buckets@[k].members@.map_values(|u: usize| u as int)
    }

    /// Number of buckets.
    pub fn num_buckets(&self) -> (n: usize)
        ensures
            n == self.labels().len(),
    {
        self.buckets.len()
    }

    /// The first entries of one bucket, up to the configured browse cap.
    pub fn bucket_top(&self, k: usize, cap: usize) -> (r: Vec<usize>)
        requires
            k < self.labels().len(),
        ensures
            r@.len() == capped(cap as int, self.members_view(k as int).len() as int),
            forall|m: int| 0 <= m < r@.len() ==> r@[m] as int == self.members_view(k as int)[m],
    {
        let b = &self.buckets[k];
        let keep: usize = if cap < b.members.len() {
            cap
        } else {
            b.members.len()
        };
        let mut out: Vec<usize> = Vec::new();
        let mut i: usize = 0;
        while i < keep
            invariant
                i <= keep,
                keep <= b.members@.len(),
                b == self.buckets@[k as int],
                out@.len() == i,
                forall|m: int| 0 <= m < i ==> out@[m] == b.members@[m],
            decreases keep - i,
        {
            out.push(b.members[i]);
            i = i + 1;
        }
        out
    }
}

/// Which categorization policy to apply.
#[derive(Clone, Copy, PartialEq, Eq, Structural)]
pub enum CategoryPolicy {
    /// Each entry lands in exactly one display bucket.
    SingleBucket,
    /// Each entry lands in every raw tag it declares.
    MultiBucket,
}

/// The index a catalog maps to under a policy: labels and members all
/// pinned, so the transform is deterministic.
pub open spec fn index_models(idx: CategoryIndex, es: Seq<AppData>, policy: CategoryPolicy) -> bool {
    match policy {
        CategoryPolicy::SingleBucket => {
            &&& idx.labels() == display_labels()
            &&& forall|k: int|
                0 <= k < display_labels().len() ==> idx.members_view(k) == single_members(
                    es,
                    display_labels()[k],
                    es.len() as int,
                )
        },
        CategoryPolicy::MultiBucket => {
            &&& idx.labels() == multi_labels(es, es.len() as int)
            &&& forall|k: int|
                0 <= k < idx.labels().len() ==> idx.members_view(k) == multi_members(
                    es,
                    idx.labels()[k],
                    es.len() as int,
                )
        },
    }
}

/// Translate one raw tag through the priority table.
fn translate_tag(tag: &Vec<u8>) -> (r: Option<Vec<u8>>)
    ensures
        match r {
            Some(l) => translate(tag@) == Some(l@),
            None => translate(tag@) is None,
        },
{
    let t: Vec<u8> = vec![85, 116, 105, 108, 105, 116, 121];
    proof {
        assert(t@ =~= utility_tag());
    }
    if bytes_eq(tag, &t) {
        let l: Vec<u8> = vec![85, 116, 105, 108, 105, 116, 105, 101, 115];
        proof {
            assert(l@ =~= utilities_label());
        }
        return Some(l);
    }
    let t: Vec<u8> = vec![68, 101, 118, 101, 108, 111, 112, 109, 101, 110, 116];
    proof {
        assert(t@ =~= development_tag());
    }
    if bytes_eq(tag, &t) {
        let l: Vec<u8> = vec![68, 101, 118, 101, 108, 111, 112, 109, 101, 110, 116];
        proof {
            assert(l@ =~= development_label());
        }
        return Some(l);
    }
    let t: Vec<u8> = vec![71, 114, 97, 112, 104, 105, 99, 115];
    proof {
        assert(t@ =~= graphics_tag());
    }
    if bytes_eq(tag, &t) {
        let l: Vec<u8> = vec![71, 114, 97, 112, 104, 105, 99, 115];
        proof {
            assert(l@ =~= graphics_label());
        }
        return Some(l);
    }
    let t: Vec<u8> = vec![78, 101, 116, 119, 111, 114, 107];
    proof {
        assert(t@ =~= network_tag());
    }
    if bytes_eq(tag, &t) {
        let l: Vec<u8> = vec![73, 110, 116, 101, 114, 110, 101, 116];
        proof {
            assert(l@ =~= internet_label());
        }
        return Some(l);
    }
    let t: Vec<u8> = vec![79, 102, 102, 105, 99, 101];
    proof {
        assert(t@ =~= office_tag());
    }
    if bytes_eq(tag, &t) {
        let l: Vec<u8> = vec![79, 102, 102, 105, 99, 101];
        proof {
            assert(l@ =~= office_label());
        }
        return Some(l);
    }
    let t: Vec<u8> = vec![65, 117, 100, 105, 111, 86, 105, 100, 101, 111];
    proof {
        assert(t@ =~= audio_video_tag());
    }
    if bytes_eq(tag, &t) {
        let l: Vec<u8> = vec![77, 117, 108, 116, 105, 109, 101, 100, 105, 97];
        proof {
            assert(l@ =~= multimedia_label());
        }
        return Some(l);
    }
    let t: Vec<u8> = vec![83, 121, 115, 116, 101, 109];
    proof {
        assert(t@ =~= system_tag());
    }
    if bytes_eq(tag, &t) {
        let l: Vec<u8> = vec![83, 121, 115, 116, 101, 109];
        proof {
            assert(l@ =~= system_label());
        }
        return Some(l);
    }
    let t: Vec<u8> = vec![71, 97, 109, 101];
    proof {
        assert(t@ =~= game_tag());
    }
    if bytes_eq(tag, &t) {
        let l: Vec<u8> = vec![71, 97, 109, 101, 115];
        proof {
            assert(l@ =~= games_label());
        }
        return Some(l);
    }
    let t: Vec<u8> = vec![83, 101, 116, 116, 105, 110, 103, 115];
    proof {
        assert(t@ =~= settings_tag());
    }
    if bytes_eq(tag, &t) {
        let l: Vec<u8> = vec![80, 114, 101, 102, 101, 114, 101, 110, 99, 101, 115];
        proof {
            assert(l@ =~= preferences_label());
        }
        return Some(l);
    }
    None
}

/// The bucket labels of the single-bucket policy.
fn display_labels_vec() -> (v: Vec<Vec<u8>>)
    ensures
        v.deep_view() == display_labels(),
{
    let mut v: Vec<Vec<u8>> = Vec::new();
    let l: Vec<u8> = vec![85, 116, 105, 108, 105, 116, 105, 101, 115];
    proof {
        assert(l@ =~= utilities_label());
    }
    v.push(l);
    let l: Vec<u8> = vec![68, 101, 118, 101, 108, 111, 112, 109, 101, 110, 116];
    proof {
        assert(l@ =~= development_label());
    }
    v.push(l);
    let l: Vec<u8> = vec![71, 114, 97, 112, 104, 105, 99, 115];
    proof {
        assert(l@ =~= graphics_label());
    }
    v.push(l);
    let l: Vec<u8> = vec![73, 110, 116, 101, 114, 110, 101, 116];
    proof {
        assert(l@ =~= internet_label());
    }
    v.push(l);
    let l: Vec<u8> = vec![79, 102, 102, 105, 99, 101];
    proof {
        assert(l@ =~= office_label());
    }
    v.push(l);
    let l: Vec<u8> = vec![77, 117, 108, 116, 105, 109, 101, 100, 105, 97];
    proof {
        assert(l@ =~= multimedia_label());
    }
    v.push(l);
    let l: Vec<u8> = vec![83, 121, 115, 116, 101, 109];
    proof {
        assert(l@ =~= system_label());
    }
    v.push(l);
    let l: Vec<u8> = vec![71, 97, 109, 101, 115];
    proof {
        assert(l@ =~= games_label());
    }
    v.push(l);
    let l: Vec<u8> = vec![80, 114, 101, 102, 101, 114, 101, 110, 99, 101, 115];
    proof {
        assert(l@ =~= preferences_label());
    }
    v.push(l);
    let l: Vec<u8> = vec![79, 116, 104, 101, 114];
    proof {
        assert(l@ =~= other_label());
    }
    v.push(l);
    proof {
        assert(v.deep_view() =~~= display_labels());
    }
    v
}

/// The single-policy label of one entry's declared categories.
fn entry_single_label(cats: &Vec<Vec<u8>>) -> (r: Vec<u8>)
    ensures
        r@ == single_label_from(cats.deep_view()),
{
    let ghost full = cats.deep_view();
    let mut i: usize = 0;
    proof {
        assert(full.skip(0) =~~= full);
    }
    while i < cats.len()
        invariant
            i <= cats.len(),
            full == cats.deep_view(),
            single_label_from(full) == single_label_from(full.skip(i as int)),
        decreases cats.len() - i,
    {
        proof {
            assert(full.skip(i as int)[0] == cats@[i as int]@);
            assert(full.skip(i as int).drop_first() =~~= full.skip(i as int + 1));
        }
        match translate_tag(&cats[i]) {
            Some(l) => {
                return l;
            },
            None => {},
        }
        i = i + 1;
    }
    assert(full.skip(cats.len() as int).len() == 0);
    let o: Vec<u8> = vec![79, 116, 104, 101, 114];
    proof {
        assert(o@ =~= other_label());
    }
    o
}

/// The tags of one entry under the multi-bucket policy.
fn entry_eff_tags(e: &ApplicationEntry) -> (r: Vec<Vec<u8>>)
    ensures
        r.deep_view() == eff_tags(e@),
{
    if e.categories.len() == 0 {
        let mut v: Vec<Vec<u8>> = Vec::new();
        let o: Vec<u8> = vec![79, 116, 104, 101, 114];
        proof {
            assert(o@ =~= other_label());
        }
        v.push(o);
        proof {
            assert(v.deep_view() =~~= seq![other_label()]);
        }
        v
    } else {
        copy_parts(&e.categories)
    }
}

/// Whether a list of labels already holds this one.
fn labels_contain(labels: &Vec<Vec<u8>>, x: &Vec<u8>) -> (r: bool)
    ensures
        r == labels.deep_view().contains(x@),
{
    let mut i: usize = 0;
    while i < labels.len()
        invariant
            i <= labels.len(),
            forall|j: int| 0 <= j < i ==> labels.deep_view()[j] != x@,
        decreases labels.len() - i,
    {
        let hit = bytes_eq(&labels[i], x);
        assert(labels.deep_view()[i as int] == labels@[i as int]@);
        if hit {
            assert(labels.deep_view()[i as int] == x@);
            return true;
        }
        i = i + 1;
    }
    false
}

/// Categorize a catalog under a policy. Pure and deterministic: the
/// resulting index is a function of the catalog and the policy alone, so
/// re-running it yields a structurally identical index.
pub fn categorize(catalog: &Catalog, policy: CategoryPolicy) -> (idx: CategoryIndex)
    ensures
        index_models(idx, catalog@, policy),
{
    match policy {
        CategoryPolicy::SingleBucket => categorize_single(catalog),
        CategoryPolicy::MultiBucket => categorize_multi(catalog),
    }
}

/// The single-bucket policy: ten fixed buckets, each entry in exactly the
/// bucket its first translated tag selects, `Other` as fallback.
fn categorize_single(catalog: &Catalog) -> (idx: CategoryIndex)
    ensures
        index_models(idx, catalog@, CategoryPolicy::SingleBucket),
{
    let ghost es = catalog@;
    let n = catalog.len();
    let labels = display_labels_vec();
    let mut buckets: Vec<CategoryBucket> = Vec::new();
    let mut k: usize = 0;
    while k < labels.len()
        invariant
            k <= labels.len(),
            labels.deep_view() == display_labels(),
            n == es.len(),
            es == catalog@,
            buckets@.len() == k,
            forall|m: int|
                0 <= m < k ==> (#[trigger] buckets@[m]).label@ == display_labels()[m],
            forall|m: int|
                0 <= m < k ==> {
                    let mem = (#[trigger] buckets@[m]).members@;
                    let sm = single_members(es, display_labels()[m], n as int);
                    mem.len() == sm.len() && forall|t: int|
                        0 <= t < mem.len() ==> mem[t] as int == sm[t]
                },
        decreases labels.len() - k,
    {
        let label = labels[k].clone();
        proof {
            assert(label@ =~= labels@[k as int]@);
            assert(label@ == display_labels()[k as int]);
        }
        let mut members: Vec<usize> = Vec::new();
        let mut i: usize = 0;
        while i < n
            invariant
                i <= n,
                n == es.len(),
                es == catalog@,
                label@ == display_labels()[k as int],
                k < labels@.len(),
                labels.deep_view() == display_labels(),
                members@.len() == single_members(es, label@, i as int).len(),
                forall|t: int|
                    0 <= t < members@.len() ==> members@[t] as int == single_members(
                        es,
                        label@,
                        i as int,
                    )[t],
            decreases n - i,
        {
            let e = catalog.get(i);
            proof {
                assert(e@.categories == es[i as int].categories);
            }
            let sl = entry_single_label(&e.categories);
            let ghost prev = single_members(es, label@, i as int);
            let ghost cur = single_members(es, label@, i as int + 1);
            if bytes_eq(&sl, &label) {
                members.push(i);
                proof {
                    assert(cur == prev + seq![i as int]);
                }
            } else {
                proof {
                    assert(cur == prev + Seq::<int>::empty());
                    assert(cur =~= prev);
                }
            }
            i = i + 1;
        }
        buckets.push(CategoryBucket { label, members });
        k = k + 1;
    }
    let idx = CategoryIndex { buckets };
    proof {
        assert(idx.labels() =~~= display_labels());
        assert forall|m: int| 0 <= m < display_labels().len() implies idx.members_view(m)
            == single_members(es, display_labels()[m], es.len() as int) by {
            assert(idx.members_view(m) =~= single_members(es, display_labels()[m], es.len() as int));
        }
    }
    idx
}

/// The multi-bucket policy: one bucket per raw tag in first-appearance
/// order, each entry in every bucket its tags name, `Other` for entries
/// declaring none.
fn categorize_multi(catalog: &Catalog) -> (idx: CategoryIndex)
    ensures
        index_models(idx, catalog@, CategoryPolicy::MultiBucket),
{
    let ghost es = catalog@;
    let n = catalog.len();

    // Collect the labels in first-appearance order.
    let mut labels: Vec<Vec<u8>> = Vec::new();
    let mut i: usize = 0;
    while i < n
        invariant
            i <= n,
            n == es.len(),
            es == catalog@,
            labels.deep_view() == multi_labels(es, i as int),
        decreases n - i,
    {
        let e = catalog.get(i);
        let tags = entry_eff_tags(e);
        let ghost start = labels.deep_view();
        let ghost tgs = tags.deep_view();
        proof {
            assert(eff_tags(es[i as int]) == tgs);
            assert(tgs.skip(0) =~~= tgs);
        }
        let mut j: usize = 0;
        while j < tags.len()
            invariant
                j <= tags.len(),
                tgs == tags.deep_view(),
                add_new(start, tgs) == add_new(labels.deep_view(), tgs.skip(j as int)),
            decreases tags.len() - j,
        {
            proof {
                assert(tgs.skip(j as int)[0] == tags@[j as int]@);
                assert(tgs.skip(j as int).drop_first() =~~= tgs.skip(j as int + 1));
            }
            let ghost before = labels.deep_view();
            if !labels_contain(&labels, &tags[j]) {
                let t = tags[j].clone();
                proof {
                    assert(t@ =~= tags@[j as int]@);
                }
                labels.push(t);
                proof {
                    assert(labels.deep_view() =~~= before.push(tgs.skip(j as int)[0]));
                }
            }
            j = j + 1;
        }
        proof {
            assert(tgs.skip(tags@.len() as int).len() == 0);
            assert(labels.deep_view() == add_new(start, tgs));
        }
        i = i + 1;
    }

    // Fill one bucket per label.
    let mut buckets: Vec<CategoryBucket> = Vec::new();
    let mut k: usize = 0;
    while k < labels.len()
        invariant
            k <= labels.len(),
            n == es.len(),
            es == catalog@,
            labels.deep_view() == multi_labels(es, n as int),
            buckets@.len() == k,
            forall|m: int|
                0 <= m < k ==> (#[trigger] buckets@[m]).label@ == multi_labels(es, n as int)[m],
            forall|m: int|
                0 <= m < k ==> {
                    let mem = (#[trigger] buckets@[m]).members@;
                    let sm = multi_members(es, multi_labels(es, n as int)[m], n as int);
                    mem.len() == sm.len() && forall|t: int|
                        0 <= t < mem.len() ==> mem[t] as int == sm[t]
                },
        decreases labels.len() - k,
    {
        let label = labels[k].clone();
        proof {
            assert(label@ =~= labels@[k as int]@);
            assert(label@ == multi_labels(es, n as int)[k as int]);
        }
        let mut members: Vec<usize> = Vec::new();
        let mut i2: usize = 0;
        while i2 < n
            invariant
                i2 <= n,
                n == es.len(),
                es == catalog@,
                label@ == multi_labels(es, n as int)[k as int],
                members@.len() == multi_members(es, label@, i2 as int).len(),
                forall|t: int|
                    0 <= t < members@.len() ==> members@[t] as int == multi_members(
                        es,
                        label@,
                        i2 as int,
                    )[t],
            decreases n - i2,
        {
            let e = catalog.get(i2);
            let tags = entry_eff_tags(e);
            let ghost tgs = tags.deep_view();
            proof {
                assert(eff_tags(es[i2 as int]) == tgs);
                assert(tgs.take(0).len() == 0);
            }
            let ghost base = multi_members(es, label@, i2 as int);
            let mut j: usize = 0;
            while j < tags.len()
                invariant
                    j <= tags.len(),
                    i2 < n,
                    tgs == tags.deep_view(),
                    base == multi_members(es, label@, i2 as int),
                    members@.len() == base.len() + label_reps(i2 as int, tgs.take(j as int), label@).len(),
                    forall|t: int|
                        0 <= t < members@.len() ==> members@[t] as int == (base + label_reps(
                            i2 as int,
                            tgs.take(j as int),
                            label@,
                        ))[t],
                decreases tags.len() - j,
            {
                proof {
                    assert(tgs.take(j as int + 1).drop_last() =~= tgs.take(j as int));
                    assert(tgs.take(j as int + 1).last() == tags@[j as int]@);
                }
                let ghost prevr = label_reps(i2 as int, tgs.take(j as int), label@);
                let ghost curr = label_reps(i2 as int, tgs.take(j as int + 1), label@);
                if bytes_eq(&tags[j], &label) {
                    members.push(i2);
                    proof {
                        assert(curr == prevr + seq![i2 as int]);
                    }
                } else {
                    proof {
                        assert(curr == prevr + Seq::<int>::empty());
                        assert(curr =~= prevr);
                    }
                }
                j = j + 1;
            }
            proof {
                assert(tgs.take(tags@.len() as int) =~~= tgs);
                assert(multi_members(es, label@, i2 as int + 1) == base + label_reps(
                    i2 as int,
                    eff_tags(es[i2 as int]),
                    label@,
                ));
            }
            i2 = i2 + 1;
        }
        buckets.push(CategoryBucket { label, members });
        k = k + 1;
    }
    let idx = CategoryIndex { buckets };
    proof {
        assert(idx.labels() =~~= multi_labels(es, n as int));
        assert forall|m: int| 0 <= m < idx.labels().len() implies idx.members_view(m)
            == multi_members(es, idx.labels()[m], es.len() as int) by {
            assert(idx.labels()[m] == multi_labels(es, n as int)[m]);
            assert(idx.members_view(m) =~= multi_members(es, idx.labels()[m], es.len() as int));
        }
    }
    idx
}


/// Elements of a single-policy bucket are exactly the catalog positions
/// whose label is the bucket's, in catalog order.
proof fn lemma_single_members_props(es: Seq<AppData>, label: Seq<u8>, n: int)
    ensures
        forall|k: int|
            0 <= k < single_members(es, label, n).len() ==> {
                let v = #[trigger] single_members(es, label, n)[k];
                0 <= v < n && single_label_from(es[v].categories) == label
            },
        forall|j: int|
            0 <= j < n && single_label_from((#[trigger] es[j]).categories) == label
                ==> single_members(es, label, n).contains(j),
    decreases n,
{
    if n > 0 {
        lemma_single_members_props(es, label, n - 1);
        let prev = single_members(es, label, n - 1);
        let cur = single_members(es, label, n);
        assert forall|j: int|
            0 <= j < n && single_label_from((#[trigger] es[j]).categories) == label implies cur
            .contains(j) by {
            if j < n - 1 {
                assert(prev.contains(j));
                let k = choose|k: int| 0 <= k < prev.len() && prev[k] == j;
                assert(cur[k] == j);
            } else {
                assert(cur[cur.len() - 1] == j);
            }
        }
    }
}

/// The single-policy label of any entry is one of the ten display labels.
proof fn lemma_single_label_in_display(cats: Seq<Seq<u8>>)
    ensures
        exists|k: int|
            0 <= k < display_labels().len() && display_labels()[k] == single_label_from(cats),
    decreases cats.len(),
{
    if cats.len() == 0 {
        assert(display_labels()[9] == single_label_from(cats));
    } else {
        match translate(cats[0]) {
            Some(l) => {
                if cats[0] == utility_tag() {
                    assert(display_labels()[0] == single_label_from(cats));
                } else if cats[0] == development_tag() {
                    assert(display_labels()[1] == single_label_from(cats));
                } else if cats[0] == graphics_tag() {
                    assert(display_labels()[2] == single_label_from(cats));
                } else if cats[0] == network_tag() {
                    assert(display_labels()[3] == single_label_from(cats));
                } else if cats[0] == office_tag() {
                    assert(display_labels()[4] == single_label_from(cats));
                } else if cats[0] == audio_video_tag() {
                    assert(display_labels()[5] == single_label_from(cats));
                } else if cats[0] == system_tag() {
                    assert(display_labels()[6] == single_label_from(cats));
                } else if cats[0] == game_tag() {
                    assert(display_labels()[7] == single_label_from(cats));
                } else {
                    assert(cats[0] == settings_tag());
                    assert(display_labels()[8] == single_label_from(cats));
                }
            },
            None => {
                lemma_single_label_in_display(cats.drop_first());
            },
        }
    }
}

/// The ten display labels are pairwise distinct.
pub proof fn lemma_display_labels_distinct()
    ensures
        forall|k: int, l: int|
            0 <= k < l < display_labels().len() ==> display_labels()[k] != display_labels()[l],
{
    assert forall|k: int, l: int|
        0 <= k < l < display_labels().len() implies display_labels()[k] != display_labels()[l] by {
        let a = display_labels()[k];
        let b = display_labels()[l];
        if a.len() == b.len() {
            assert(a[0] != b[0]);
        }
    }
}

/// Single-bucket policy: the entry at position `j` stands in the bucket of
/// its own label and in no bucket of a different label; with the labels
/// pairwise distinct, that is exactly one bucket.
pub proof fn lemma_single_policy_exactly_one(es: Seq<AppData>, j: int)
    requires
        0 <= j < es.len(),
    ensures
        exists|k: int|
            0 <= k < display_labels().len() && display_labels()[k] == single_label_from(
                es[j].categories,
            ) && single_members(es, display_labels()[k], es.len() as int).contains(j),
        forall|k: int|
            0 <= k < display_labels().len() && display_labels()[k] != single_label_from(
                es[j].categories,
            ) ==> !single_members(es, #[trigger] display_labels()[k], es.len() as int).contains(j),
{
    let n = es.len() as int;
    lemma_single_label_in_display(es[j].categories);
    let k0 = choose|k: int|
        0 <= k < display_labels().len() && display_labels()[k] == single_label_from(
            es[j].categories,
        );
    lemma_single_members_props(es, display_labels()[k0], n);
    assert(single_members(es, display_labels()[k0], n).contains(j));
    assert forall|k: int|
        0 <= k < display_labels().len() && display_labels()[k] != single_label_from(
            es[j].categories,
        ) implies !single_members(es, #[trigger] display_labels()[k], n).contains(j) by {
        lemma_single_members_props(es, display_labels()[k], n);
        if single_members(es, display_labels()[k], n).contains(j) {
            let t = choose|t: int|
                0 <= t < single_members(es, display_labels()[k], n).len() && single_members(
                    es,
                    display_labels()[k],
                    n,
                )[t] == j;
            assert(single_label_from(es[j].categories) == display_labels()[k]);
        }
    }
}

/// All positions a label-occurrence list holds are the one entry position,
/// and it holds any at all exactly when the tags name the label.
proof fn lemma_label_reps_props(i: int, tags: Seq<Seq<u8>>, label: Seq<u8>)
    ensures
        forall|k: int|
            0 <= k < label_reps(i, tags, label).len() ==> #[trigger] label_reps(i, tags, label)[k]
                == i,
        label_reps(i, tags, label).len() > 0 <==> tags.contains(label),
    decreases tags.len(),
{
    if tags.len() > 0 {
        lemma_label_reps_props(i, tags.drop_last(), label);
        if tags.last() == label {
            assert(tags[tags.len() - 1] == label);
            assert(tags.contains(label));
        } else {
            if tags.contains(label) {
                let t = choose|t: int| 0 <= t < tags.len() && tags[t] == label;
                assert(t < tags.len() - 1);
                assert(tags.drop_last()[t] == label);
                assert(tags.drop_last().contains(label));
            }
            if tags.drop_last().contains(label) {
                let t = choose|t: int|
                    0 <= t < tags.drop_last().len() && tags.drop_last()[t] == label;
                assert(tags[t] == label);
                assert(tags.contains(label));
            }
        }
    }
}

/// Elements of a multi-policy bucket are exactly the catalog positions
/// whose tags name the label.
proof fn lemma_multi_members_props(es: Seq<AppData>, label: Seq<u8>, n: int)
    ensures
        forall|k: int|
            0 <= k < multi_members(es, label, n).len() ==> {
                let v = #[trigger] multi_members(es, label, n)[k];
                0 <= v < n && eff_tags(es[v]).contains(label)
            },
        forall|j: int|
            0 <= j < n && (#[trigger] eff_tags(es[j])).contains(label) ==> multi_members(
                es,
                label,
                n,
            ).contains(j),
    decreases n,
{
    if n > 0 {
        lemma_multi_members_props(es, label, n - 1);
        lemma_label_reps_props(n - 1, eff_tags(es[n - 1]), label);
        let prev = multi_members(es, label, n - 1);
        let blk = label_reps(n - 1, eff_tags(es[n - 1]), label);
        let cur = multi_members(es, label, n);
        assert forall|k: int| 0 <= k < cur.len() implies {
            let v = #[trigger] cur[k];
            0 <= v < n && eff_tags(es[v]).contains(label)
        } by {
            if k < prev.len() {
                assert(cur[k] == prev[k]);
            } else {
                assert(cur[k] == blk[k - prev.len()]);
                assert(cur[k] == n - 1);
            }
        }
        assert forall|j: int|
            0 <= j < n && (#[trigger] eff_tags(es[j])).contains(label) implies cur.contains(j) by {
            if j < n - 1 {
                assert(prev.contains(j));
                let k = choose|k: int| 0 <= k < prev.len() && prev[k] == j;
                assert(cur[k] == j);
            } else {
                assert(blk.len() > 0);
                assert(blk[0] == j);
                assert(cur[prev.len() as int] == j);
            }
        }
    }
}

/// Folding tags into a seen list loses nothing: all old labels and all the
/// tags stand in the result.
proof fn lemma_add_new_keeps(seen: Seq<Seq<u8>>, tags: Seq<Seq<u8>>)
    ensures
        forall|x: Seq<u8>| seen.contains(x) ==> #[trigger] add_new(seen, tags).contains(x),
        forall|t: int| 0 <= t < tags.len() ==> add_new(seen, tags).contains(#[trigger] tags[t]),
    decreases tags.len(),
{
    if tags.len() > 0 {
        let seen2 = if seen.contains(tags[0]) {
            seen
        } else {
            seen.push(tags[0])
        };
        lemma_add_new_keeps(seen2, tags.drop_first());
        assert(add_new(seen, tags) == add_new(seen2, tags.drop_first()));
        assert(seen2[seen2.len() - 1] == tags[0] || seen.contains(tags[0]));
        assert forall|x: Seq<u8>| seen.contains(x) implies #[trigger] add_new(
            seen,
            tags,
        ).contains(x) by {
            let t = choose|t: int| 0 <= t < seen.len() && seen[t] == x;
            assert(seen2[t] == x);
            assert(seen2.contains(x));
            assert(add_new(seen2, tags.drop_first()).contains(x));
        }
        assert(seen2.contains(tags[0]));
        assert forall|t: int| 0 <= t < tags.len() implies add_new(seen, tags).contains(
            #[trigger] tags[t],
        ) by {
            if t == 0 {
                assert(add_new(seen2, tags.drop_first()).contains(tags[0]));
            } else {
                assert(tags.drop_first()[t - 1] == tags[t]);
            }
        }
    }
}

/// Every tag an entry carries names a bucket of the multi-policy label
/// list.
pub proof fn lemma_multi_labels_complete(es: Seq<AppData>, n: int, j: int, t: int)
    requires
        0 <= j < n,
        n <= es.len(),
        0 <= t < eff_tags(es[j]).len(),
    ensures
        multi_labels(es, n).contains(eff_tags(es[j])[t]),
    decreases n,
{
    lemma_add_new_keeps(multi_labels(es, n - 1), eff_tags(es[n - 1]));
    if j < n - 1 {
        lemma_multi_labels_complete(es, n - 1, j, t);
    }
}

/// Multi-bucket policy: an entry declaring no categories stands in the
/// `Other` bucket, which the label list names, and in no other bucket.
pub proof fn lemma_multi_policy_uncategorized(es: Seq<AppData>, j: int)
    requires
        0 <= j < es.len(),
        es[j].categories.len() == 0,
    ensures
        multi_members(es, other_label(), es.len() as int).contains(j),
        multi_labels(es, es.len() as int).contains(other_label()),
        forall|label: Seq<u8>|
            label != other_label() ==> !multi_members(es, label, es.len() as int).contains(j),
{
    let n = es.len() as int;
    assert(eff_tags(es[j]) == seq![other_label()]);
    assert(eff_tags(es[j])[0] == other_label());
    assert(eff_tags(es[j]).contains(other_label()));
    lemma_multi_members_props(es, other_label(), n);
    lemma_multi_labels_complete(es, n, j, 0);
    assert forall|label: Seq<u8>| label != other_label() implies !multi_members(
        es,
        label,
        n,
    ).contains(j) by {
        lemma_multi_members_props(es, label, n);
        if multi_members(es, label, n).contains(j) {
            let k = choose|k: int|
                0 <= k < multi_members(es, label, n).len() && multi_members(es, label, n)[k] == j;
            assert(eff_tags(es[j]).contains(label));
            let t = choose|t: int|
                0 <= t < eff_tags(es[j]).len() && eff_tags(es[j])[t] == label;
            assert(eff_tags(es[j])[t] == other_label());
        }
    }
}

/// Categorization is deterministic: two indices modeling the same catalog
/// under the same policy are structurally identical, so re-running the
/// transform changes nothing.
pub proof fn lemma_categorize_deterministic(
    a: CategoryIndex,
    b: CategoryIndex,
    es: Seq<AppData>,
    policy: CategoryPolicy,
)
    requires
        index_models(a, es, policy),
        index_models(b, es, policy),
    ensures
        a.labels() == b.labels(),
        forall|k: int| 0 <= k < a.labels().len() ==> a.members_view(k) == b.members_view(k),
{
    match policy {
        CategoryPolicy::SingleBucket => {
        },
        CategoryPolicy::MultiBucket => {
        },
    }
}

} // verus!
