//! Roster grouper: builds, for each class of the catalog, the full handicap
//! list — models carrying the class flag, bucketed by exact raw handicap,
//! buckets in descending handicap order, entries within a bucket in
//! ascending name order.
//!
//! The catalog's declaration order is preserved in the output; a class with
//! no members yields an empty section rather than an error. Each entry
//! carries its model's change-highlight flag through unchanged.

use crate::model::{
    copy_bytes, copy_model, has_flag, lemma_vec_insert_deep_view, lemma_vec_push_deep_view, Model,
    ModelV, spec_has_flag,
};
use crate::text::{
    lemma_lex_le_trans, lemma_lex_nle_implies_lt, lex_le, lex_le_bytes,
};
use vstd::prelude::*;

verus! {

/// One catalog entry: the flag that selects a class's members and the
/// display label of its section.
#[derive(Debug, PartialEq, Eq)]
pub struct ClassCategory {
    /// The class flag models are matched against.
    pub flag: Vec<u8>,
    /// Human-readable section heading, UTF-8 bytes.
    pub label: Vec<u8>,
}

/// Mathematical image of a [`ClassCategory`].
pub ghost struct ClassCategoryV {
    pub flag: Seq<u8>,
    pub label: Seq<u8>,
}

impl View for ClassCategory {
    type V = ClassCategoryV;

    open spec fn view(&self) -> ClassCategoryV {
        ClassCategoryV { flag: self.flag@, label: self.label@ }
    }
}

impl DeepView for ClassCategory {
    type V = ClassCategoryV;

    open spec fn deep_view(&self) -> ClassCategoryV {
        self.view()
    }
}

/// One entry of a handicap bucket: the model's name and its
/// change-highlight flag, carried through unchanged.
#[derive(Debug, PartialEq, Eq)]
pub struct GroupedEntry {
    /// Glider type designation of the source model.
    pub name: Vec<u8>,
    /// True when the row should be highlighted as new or changed.
    pub audit_delta: bool,
}

/// Mathematical image of a [`GroupedEntry`].
pub ghost struct GroupedEntryV {
    pub name: Seq<u8>,
    pub audit_delta: bool,
}

impl View for GroupedEntry {
    type V = GroupedEntryV;

    open spec fn view(&self) -> GroupedEntryV {
        GroupedEntryV { name: self.name@, audit_delta: self.audit_delta }
    }
}

impl DeepView for GroupedEntry {
    type V = GroupedEntryV;

    open spec fn deep_view(&self) -> GroupedEntryV {
        self.view()
    }
}

/// One handicap bucket of a class section: the members sharing one exact
/// raw handicap value, in ascending name order.
#[derive(Debug, PartialEq, Eq)]
pub struct Bucket {
    /// The shared raw handicap. Never rescaled.
    pub handicap: u32,
    /// The bucket's entries, ascending by name.
    pub entries: Vec<GroupedEntry>,
}

/// Mathematical image of a [`Bucket`].
pub ghost struct BucketV {
    pub handicap: u32,
    pub entries: Seq<GroupedEntryV>,
}

impl View for Bucket {
    type V = BucketV;

    open spec fn view(&self) -> BucketV {
        BucketV { handicap: self.handicap, entries: self.entries.deep_view() }
    }
}

impl DeepView for Bucket {
    type V = BucketV;

    open spec fn deep_view(&self) -> BucketV {
        self.view()
    }
}

/// One class section of the grouped report: its label and its buckets in
/// descending handicap order.
#[derive(Debug, PartialEq, Eq)]
pub struct ClassSection {
    /// Display label, copied from the catalog.
    pub label: Vec<u8>,
    /// Buckets in strictly descending handicap order.
    pub buckets: Vec<Bucket>,
}

/// Mathematical image of a [`ClassSection`].
pub ghost struct ClassSectionV {
    pub label: Seq<u8>,
    pub buckets: Seq<BucketV>,
}

impl View for ClassSection {
    type V = ClassSectionV;

    open spec fn view(&self) -> ClassSectionV {
        ClassSectionV { label: self.label@, buckets: self.buckets.deep_view() }
    }
}

impl DeepView for ClassSection {
    type V = ClassSectionV;

    open spec fn deep_view(&self) -> ClassSectionV {
        self.view()
    }
}

/// The bucket entry derived from a model.
pub open spec fn spec_entry_of(m: ModelV) -> GroupedEntryV {
    GroupedEntryV { name: m.name, audit_delta: m.audit_delta }
}

/// The models of the roster carrying `flag`, in roster order.
pub open spec fn spec_members(ms: Seq<ModelV>, flag: Seq<u8>) -> Seq<ModelV>
    decreases ms.len(),
{
    if ms.len() == 0 {
        Seq::empty()
    } else {
        let rest = spec_members(ms.drop_last(), flag);
        if spec_has_flag(ms.last(), flag) {
            rest.push(ms.last())
        } else {
            rest
        }
    }
}

/// Stable sorted insertion by name: `e` goes after every entry whose name
/// is at or before `e`'s, and before the rest.
pub open spec fn spec_insert_by_name(s: Seq<GroupedEntryV>, e: GroupedEntryV) -> Seq<
    GroupedEntryV,
>
    decreases s.len(),
{
    if s.len() == 0 {
        seq![e]
    } else if lex_le(s.last().name, e.name) {
        s.push(e)
    } else {
        spec_insert_by_name(s.drop_last(), e).push(s.last())
    }
}

/// The bucket for handicap `key`: the members with exactly that raw
/// handicap, insertion-sorted by name in selection order.
pub open spec fn spec_bucket(sel: Seq<ModelV>, key: u32) -> Seq<GroupedEntryV>
    decreases sel.len(),
{
    if sel.len() == 0 {
        Seq::empty()
    } else {
        let rest = spec_bucket(sel.drop_last(), key);
        if sel.last().handicap == key {
            spec_insert_by_name(rest, spec_entry_of(sel.last()))
        } else {
            rest
        }
    }
}

/// Some member has this raw handicap.
pub open spec fn spec_key_present(sel: Seq<ModelV>, key: u32) -> bool {
    exists|i: int| 0 <= i < sel.len() && sel[i].handicap == key
}

/// Entries are pairwise in ascending name order.
pub open spec fn spec_sorted_by_name(s: Seq<GroupedEntryV>) -> bool {
    forall|i: int, j: int| 0 <= i < j < s.len() ==> lex_le(#[trigger] s[i].name, #[trigger] s[j].name)
}

/// Bucket keys are pairwise in strictly descending order.
pub open spec fn spec_buckets_descending(bs: Seq<BucketV>) -> bool {
    forall|j: int, k: int|
        0 <= j < k < bs.len() ==> (#[trigger] bs[j]).handicap > (#[trigger] bs[k]).handicap
}

/// Some bucket carries this handicap key.
pub open spec fn spec_has_bucket(bs: Seq<BucketV>, key: u32) -> bool {
    exists|j: int| 0 <= j < bs.len() && bs[j].handicap == key
}

/// What one class section promises about the roster it was built from:
/// the catalog label is kept; buckets are strictly descending by raw
/// handicap, nonempty, sorted by name inside, each the exact bucket of its
/// key; there is a bucket for a key exactly when a member has that
/// handicap.
pub open spec fn spec_section_ok(sec: ClassSectionV, ms: Seq<ModelV>, cat: ClassCategoryV) -> bool {
    let sel = spec_members(ms, cat.flag);
    &&& sec.label == cat.label
    &&& spec_buckets_descending(sec.buckets)
    &&& forall|j: int|
        0 <= j < sec.buckets.len() ==> (#[trigger] sec.buckets[j]).entries == spec_bucket(
            sel,
            sec.buckets[j].handicap,
        )
    &&& forall|j: int|
        0 <= j < sec.buckets.len() ==> spec_key_present(sel, (#[trigger] sec.buckets[j]).handicap)
    &&& forall|j: int| 0 <= j < sec.buckets.len() ==> (#[trigger] sec.buckets[j]).entries.len() > 0
    &&& forall|j: int|
        0 <= j < sec.buckets.len() ==> spec_sorted_by_name((#[trigger] sec.buckets[j]).entries)
    &&& forall|i: int|
        0 <= i < sel.len() ==> spec_has_bucket(sec.buckets, (#[trigger] sel[i]).handicap)
}

/// Sorted insertion grows the entry list by exactly one.
pub proof fn lemma_insert_by_name_len(s: Seq<GroupedEntryV>, e: GroupedEntryV)
    ensures
        spec_insert_by_name(s, e).len() == s.len() + 1,
    decreases s.len(),
{
    if s.len() > 0 && !lex_le(s.last().name, e.name) {
        lemma_insert_by_name_len(s.drop_last(), e);
    }
}

/// Every entry of a sorted insertion is the inserted entry or one of the
/// original entries.
pub proof fn lemma_insert_by_name_elements(s: Seq<GroupedEntryV>, e: GroupedEntryV)
    ensures
        forall|k: int|
            0 <= k < spec_insert_by_name(s, e).len() ==> (#[trigger] spec_insert_by_name(s, e)[k]
                == e || s.contains(spec_insert_by_name(s, e)[k])),
    decreases s.len(),
{
    let out = spec_insert_by_name(s, e);
    if s.len() == 0 {
    } else if lex_le(s.last().name, e.name) {
        assert forall|k: int| 0 <= k < out.len() implies (out[k] == e || s.contains(out[k])) by {
            if k < s.len() {
                assert(out[k] == s[k]);
            }
        }
    } else {
        let dl = s.drop_last();
        let inner = spec_insert_by_name(dl, e);
        lemma_insert_by_name_elements(dl, e);
        assert forall|k: int| 0 <= k < out.len() implies (out[k] == e || s.contains(out[k])) by {
            if k < inner.len() {
                assert(out[k] == inner[k]);
                if inner[k] != e {
                    let idx = choose|idx: int| 0 <= idx < dl.len() && dl[idx] == inner[k];
                    assert(s[idx] == inner[k]);
                }
            } else {
                assert(out[k] == s.last());
                assert(s[s.len() - 1] == s.last());
            }
        }
    }
}

/// Sorted insertion keeps the entry list in ascending name order.
pub proof fn lemma_insert_by_name_sorted(s: Seq<GroupedEntryV>, e: GroupedEntryV)
    requires
        spec_sorted_by_name(s),
    ensures
        spec_sorted_by_name(spec_insert_by_name(s, e)),
    decreases s.len(),
{
    let out = spec_insert_by_name(s, e);
    lemma_insert_by_name_len(s, e);
    if s.len() == 0 {
    } else if lex_le(s.last().name, e.name) {
        assert forall|i: int, j: int| 0 <= i < j < out.len() implies lex_le(
            out[i].name,
            out[j].name,
        ) by {
            if j < s.len() {
            } else {
                assert(out[j] == e);
                assert(out[i] == s[i]);
                if i < s.len() - 1 {
                    assert(lex_le(s[i].name, s.last().name));
                    lemma_lex_le_trans(s[i].name, s.last().name, e.name);
                }
            }
        }
    } else {
        let dl = s.drop_last();
        let inner = spec_insert_by_name(dl, e);
        assert forall|i: int, j: int| 0 <= i < j < dl.len() implies lex_le(
            #[trigger] dl[i].name,
            #[trigger] dl[j].name,
        ) by {
            assert(dl[i] == s[i]);
            assert(dl[j] == s[j]);
        }
        lemma_insert_by_name_sorted(dl, e);
        lemma_insert_by_name_len(dl, e);
        lemma_insert_by_name_elements(dl, e);
        lemma_lex_nle_implies_lt(e.name, s.last().name);
        assert forall|i: int, j: int| 0 <= i < j < out.len() implies lex_le(
            out[i].name,
            out[j].name,
        ) by {
            if j < inner.len() {
                assert(out[i] == inner[i]);
                assert(out[j] == inner[j]);
            } else {
                assert(out[j] == s.last());
                assert(out[i] == inner[i]);
                if inner[i] == e {
                    assert(lex_le(e.name, s.last().name));
                } else {
                    assert(dl.contains(inner[i]));
                    let idx = choose|idx: int| 0 <= idx < dl.len() && dl[idx] == inner[i];
                    assert(s[idx] == inner[i]);
                    assert(lex_le(s[idx].name, s[s.len() - 1].name));
                }
            }
        }
    }
}

/// Law: within a bucket, entries are in ascending name order.
pub proof fn lemma_bucket_sorted(sel: Seq<ModelV>, key: u32)
    ensures
        spec_sorted_by_name(spec_bucket(sel, key)),
    decreases sel.len(),
{
    if sel.len() > 0 {
        lemma_bucket_sorted(sel.drop_last(), key);
        if sel.last().handicap == key {
            lemma_insert_by_name_sorted(spec_bucket(sel.drop_last(), key), spec_entry_of(sel.last()));
        }
    }
}

/// Law: a handicap value some member carries has a nonempty bucket.
pub proof fn lemma_bucket_nonempty(sel: Seq<ModelV>, key: u32)
    requires
        spec_key_present(sel, key),
    ensures
        spec_bucket(sel, key).len() > 0,
    decreases sel.len(),
{
    if sel.last().handicap == key {
        lemma_insert_by_name_len(spec_bucket(sel.drop_last(), key), spec_entry_of(sel.last()));
    } else {
        let i = choose|i: int| 0 <= i < sel.len() && sel[i].handicap == key;
        assert(sel.drop_last()[i] == sel[i]);
        lemma_bucket_nonempty(sel.drop_last(), key);
    }
}

/// Where the scan of a sorted entry list stops is where the stable sorted
/// insertion places the new entry.
pub proof fn lemma_insert_by_name_at(s: Seq<GroupedEntryV>, e: GroupedEntryV, at: int)
    requires
        0 <= at <= s.len(),
        forall|idx: int| at <= idx < s.len() ==> !lex_le((#[trigger] s[idx]).name, e.name),
        at > 0 ==> lex_le(s[at - 1].name, e.name),
    ensures
        spec_insert_by_name(s, e) == s.insert(at, e),
    decreases s.len(),
{
    if s.len() == 0 {
        assert(spec_insert_by_name(s, e) =~= s.insert(0, e));
    } else if at == s.len() {
        assert(lex_le(s.last().name, e.name));
        assert(spec_insert_by_name(s, e) =~= s.insert(at, e));
    } else {
        assert(!lex_le(s[s.len() - 1].name, e.name));
        let dl = s.drop_last();
        assert forall|idx: int| at <= idx < dl.len() implies !lex_le(
            (#[trigger] dl[idx]).name,
            e.name,
        ) by {
            assert(dl[idx] == s[idx]);
        }
        if at > 0 {
            assert(dl[at - 1] == s[at - 1]);
        }
        lemma_insert_by_name_at(dl, e, at);
        dl.insert_ensures(at, e);
        s.insert_ensures(at, e);
        assert(spec_insert_by_name(s, e) =~= s.insert(at, e));
    }
}

/// The members with exactly this raw handicap, in selection order.
pub open spec fn spec_matching(sel: Seq<ModelV>, key: u32) -> Seq<ModelV>
    decreases sel.len(),
{
    if sel.len() == 0 {
        Seq::empty()
    } else {
        let rest = spec_matching(sel.drop_last(), key);
        if sel.last().handicap == key {
            rest.push(sel.last())
        } else {
            rest
        }
    }
}

/// Sorted insertion only reorders: the multiset of entries grows by
/// exactly the inserted entry.
pub proof fn lemma_insert_by_name_multiset(s: Seq<GroupedEntryV>, e: GroupedEntryV)
    ensures
        spec_insert_by_name(s, e).to_multiset() == s.to_multiset().insert(e),
    decreases s.len(),
{
    broadcast use vstd::seq_lib::group_to_multiset_ensures;

    if s.len() == 0 {
        assert(s.push(e) =~= seq![e]);
    } else if lex_le(s.last().name, e.name) {
    } else {
        let dl = s.drop_last();
        lemma_insert_by_name_multiset(dl, e);
        assert(dl.push(s.last()) =~= s);
        assert(dl.to_multiset().insert(e).insert(s.last()) =~= dl.to_multiset().insert(
            s.last(),
        ).insert(e));
    }
}

/// Law: bucket contents. A bucket holds exactly the entries of the class
/// members with its handicap key, counted with multiplicity — sorting by
/// name neither drops, adds, nor alters an entry.
pub proof fn lemma_bucket_contents(sel: Seq<ModelV>, key: u32)
    ensures
        spec_bucket(sel, key).to_multiset() == spec_matching(sel, key).map_values(
            |m: ModelV| spec_entry_of(m),
        ).to_multiset(),
    decreases sel.len(),
{
    broadcast use vstd::seq_lib::group_to_multiset_ensures;

    let f = |m: ModelV| spec_entry_of(m);
    if sel.len() == 0 {
        assert(spec_matching(sel, key).map_values(f) =~= spec_bucket(sel, key));
    } else {
        let dl = sel.drop_last();
        lemma_bucket_contents(dl, key);
        if sel.last().handicap == key {
            lemma_insert_by_name_multiset(spec_bucket(dl, key), spec_entry_of(sel.last()));
            assert(spec_matching(sel, key).map_values(f) =~= spec_matching(dl, key).map_values(
                f,
            ).push(f(sel.last())));
        }
    }
}

/// Strictly descending key lists with the same key membership are
/// identical key for key.
proof fn lemma_desc_keys_unique(b1: Seq<BucketV>, b2: Seq<BucketV>)
    requires
        spec_buckets_descending(b1),
        spec_buckets_descending(b2),
        forall|k: u32| spec_has_bucket(b1, k) <==> spec_has_bucket(b2, k),
    ensures
        b1.len() == b2.len(),
        forall|j: int| 0 <= j < b1.len() ==> (#[trigger] b1[j]).handicap == b2[j].handicap,
    decreases b1.len(),
{
    if b1.len() == 0 {
        if b2.len() > 0 {
            assert(spec_has_bucket(b2, b2[0].handicap));
            assert(false);
        }
    } else if b2.len() == 0 {
        assert(spec_has_bucket(b1, b1[0].handicap));
        assert(false);
    } else {
        let h1 = b1[0].handicap;
        let h2 = b2[0].handicap;
        assert(spec_has_bucket(b2, h1));
        let j1 = choose|j: int| 0 <= j < b2.len() && b2[j].handicap == h1;
        assert(h2 >= h1) by {
            if j1 > 0 {
                assert(b2[0].handicap > b2[j1].handicap);
            }
        }
        assert(spec_has_bucket(b1, h2));
        let j2 = choose|j: int| 0 <= j < b1.len() && b1[j].handicap == h2;
        assert(h1 >= h2) by {
            if j2 > 0 {
                assert(b1[0].handicap > b1[j2].handicap);
            }
        }
        let t1 = b1.skip(1);
        let t2 = b2.skip(1);
        assert forall|j: int, k: int| 0 <= j < k < t1.len() implies (#[trigger] t1[j]).handicap
            > (#[trigger] t1[k]).handicap by {
            assert(t1[j] == b1[j + 1] && t1[k] == b1[k + 1]);
        }
        assert forall|j: int, k: int| 0 <= j < k < t2.len() implies (#[trigger] t2[j]).handicap
            > (#[trigger] t2[k]).handicap by {
            assert(t2[j] == b2[j + 1] && t2[k] == b2[k + 1]);
        }
        assert forall|k: u32| spec_has_bucket(t1, k) implies spec_has_bucket(t2, k) by {
            let j = choose|j: int| 0 <= j < t1.len() && t1[j].handicap == k;
            assert(t1[j] == b1[j + 1]);
            assert(b1[0].handicap > b1[j + 1].handicap);
            assert(spec_has_bucket(b1, k));
            let jj = choose|j: int| 0 <= j < b2.len() && b2[j].handicap == k;
            assert(jj != 0);
            assert(t2[jj - 1] == b2[jj]);
        }
        assert forall|k: u32| spec_has_bucket(t2, k) implies spec_has_bucket(t1, k) by {
            let j = choose|j: int| 0 <= j < t2.len() && t2[j].handicap == k;
            assert(t2[j] == b2[j + 1]);
            assert(b2[0].handicap > b2[j + 1].handicap);
            assert(spec_has_bucket(b2, k));
            let jj = choose|j: int| 0 <= j < b1.len() && b1[j].handicap == k;
            assert(jj != 0);
            assert(t1[jj - 1] == b1[jj]);
        }
        lemma_desc_keys_unique(t1, t2);
        assert forall|j: int| 0 <= j < b1.len() implies (#[trigger] b1[j]).handicap
            == b2[j].handicap by {
            if j > 0 {
                assert(t1[j - 1] == b1[j] && t2[j - 1] == b2[j]);
            }
        }
    }
}

/// Law: determinism. The section contract leaves no freedom — any two
/// sections that satisfy it for the same roster and catalog entry are
/// equal, so repeated grouping of the same input yields identical output.
pub proof fn lemma_group_deterministic(
    s1: ClassSectionV,
    s2: ClassSectionV,
    ms: Seq<ModelV>,
    cat: ClassCategoryV,
)
    requires
        spec_section_ok(s1, ms, cat),
        spec_section_ok(s2, ms, cat),
    ensures
        s1 == s2,
{
    let sel = spec_members(ms, cat.flag);
    assert forall|k: u32| spec_has_bucket(s1.buckets, k) implies spec_has_bucket(
        s2.buckets,
        k,
    ) by {
        let j = choose|j: int| 0 <= j < s1.buckets.len() && s1.buckets[j].handicap == k;
        assert(spec_key_present(sel, s1.buckets[j].handicap));
        let i = choose|i: int| 0 <= i < sel.len() && sel[i].handicap == k;
        assert(spec_has_bucket(s2.buckets, sel[i].handicap));
    }
    assert forall|k: u32| spec_has_bucket(s2.buckets, k) implies spec_has_bucket(
        s1.buckets,
        k,
    ) by {
        let j = choose|j: int| 0 <= j < s2.buckets.len() && s2.buckets[j].handicap == k;
        assert(spec_key_present(sel, s2.buckets[j].handicap));
        let i = choose|i: int| 0 <= i < sel.len() && sel[i].handicap == k;
        assert(spec_has_bucket(s1.buckets, sel[i].handicap));
    }
    lemma_desc_keys_unique(s1.buckets, s2.buckets);
    assert forall|j: int| 0 <= j < s1.buckets.len() implies #[trigger] s1.buckets[j]
        == s2.buckets[j] by {
        assert(s1.buckets[j].entries == spec_bucket(sel, s1.buckets[j].handicap));
        assert(s2.buckets[j].entries == spec_bucket(sel, s2.buckets[j].handicap));
    }
    assert(s1.buckets =~= s2.buckets);
}

/// Selects the models carrying `flag`, in roster order.
fn select_members(models: &Vec<Model>, flag: &Vec<u8>) -> (sel: Vec<Model>)
    ensures
        sel.deep_view() == spec_members(models.deep_view(), flag@),
{
    let ghost msv = models.deep_view();
    let mut sel: Vec<Model> = Vec::new();
    let mut i: usize = 0;
    proof {
        assert(msv.take(0) =~= Seq::<ModelV>::empty());
        assert(sel.deep_view() =~= Seq::<ModelV>::empty());
    }
    while i < models.len()
        invariant
            i <= models.len(),
            msv == models.deep_view(),
            msv.len() == models.len(),
            sel.deep_view() == spec_members(msv.take(i as int), flag@),
        decreases models.len() - i,
    {
        proof {
            assert(msv.take(i + 1).drop_last() =~= msv.take(i as int));
            assert(msv.take(i + 1).last() == msv[i as int]);
            assert(msv[i as int] == models@[i as int]@);
        }
        let m = &models[i];
        if has_flag(m, flag) {
            let c = copy_model(m);
            let ghost csnap = c;
            let ghost prev = sel;
            sel.push(c);
            proof {
                lemma_vec_push_deep_view(prev, sel, csnap);
            }
        }
        i = i + 1;
    }
    proof {
        assert(msv.take(models.len() as int) =~= msv);
    }
    sel
}

/// Collects the distinct raw handicaps of the selected members, in
/// strictly descending order.
#[verifier::loop_isolation(false)]
fn collect_keys(sel: &Vec<Model>) -> (keys: Vec<u32>)
    ensures
        forall|a: int, b: int| 0 <= a < b < keys@.len() ==> keys@[a] > keys@[b],
        forall|j: int|
            0 <= j < keys@.len() ==> spec_key_present(sel.deep_view(), #[trigger] keys@[j]),
        forall|t: int|
            0 <= t < sel.deep_view().len() ==> keys@.contains(
                (#[trigger] sel.deep_view()[t]).handicap,
            ),
{
    let ghost sv = sel.deep_view();
    let mut keys: Vec<u32> = Vec::new();
    let mut i: usize = 0;
    while i < sel.len()
        invariant
            i <= sel.len(),
            forall|a: int, b: int| 0 <= a < b < keys@.len() ==> keys@[a] > keys@[b],
            forall|j: int| 0 <= j < keys@.len() ==> spec_key_present(sv, #[trigger] keys@[j]),
            forall|t: int| 0 <= t < i ==> keys@.contains((#[trigger] sv[t]).handicap),
        decreases sel.len() - i,
    {
        let h = sel[i].handicap;
        proof {
            assert(sv[i as int] == sel@[i as int]@);
            assert(sv[i as int].handicap == h);
        }
        let mut j: usize = 0;
        while j < keys.len() && keys[j] > h
            invariant
                j <= keys.len(),
                forall|idx: int| 0 <= idx < j ==> keys@[idx] > h,
            decreases keys.len() - j,
        {
            j = j + 1;
        }
        let mut already = false;
        if j < keys.len() {
            if keys[j] == h {
                already = true;
            }
        }
        if already {
            proof {
                assert(keys@[j as int] == h);
                assert(keys@.contains(sv[i as int].handicap));
            }
        } else {
            let ghost kprev = keys@;
            keys.insert(j, h);
            proof {
                kprev.insert_ensures(j as int, h);
                assert forall|a: int, b: int| 0 <= a < b < keys@.len() implies keys@[a]
                    > keys@[b] by {
                    if b < j {
                        assert(keys@[a] == kprev[a] && keys@[b] == kprev[b]);
                    } else if b == j {
                        assert(keys@[a] == kprev[a] && keys@[b] == h);
                    } else if a < j {
                        assert(keys@[a] == kprev[a]);
                        assert(keys@[(b - 1) + 1] == kprev[b - 1]);
                        assert(a < b - 1 || kprev[a] > kprev[b - 1]) by {
                            assert(j as int <= b - 1);
                        }
                    } else if a == j {
                        assert(keys@[a] == h);
                        assert(keys@[(b - 1) + 1] == kprev[b - 1]);
                        assert(kprev[j as int] < h);
                    } else {
                        assert(keys@[(a - 1) + 1] == kprev[a - 1]);
                        assert(keys@[(b - 1) + 1] == kprev[b - 1]);
                    }
                }
                assert forall|jj: int| 0 <= jj < keys@.len() implies spec_key_present(
                    sv,
                    #[trigger] keys@[jj],
                ) by {
                    if jj < j {
                        assert(keys@[jj] == kprev[jj]);
                    } else if jj == j {
                        assert(keys@[jj] == h);
                        assert(0 <= i < sv.len() && sv[i as int].handicap == h);
                    } else {
                        assert(keys@[(jj - 1) + 1] == kprev[jj - 1]);
                    }
                }
                assert forall|t: int| 0 <= t < i + 1 implies keys@.contains(
                    (#[trigger] sv[t]).handicap,
                ) by {
                    if t < i {
                        let idx = choose|idx: int|
                            0 <= idx < kprev.len() && kprev[idx] == sv[t].handicap;
                        if idx < j {
                            assert(keys@[idx] == sv[t].handicap);
                        } else {
                            assert(keys@[idx + 1] == sv[t].handicap);
                        }
                    } else {
                        assert(keys@[j as int] == sv[t].handicap);
                    }
                }
            }
        }
        i = i + 1;
    }
    keys
}

/// Builds the bucket for one handicap key: the members with exactly that
/// raw handicap, stably insertion-sorted by name.
#[verifier::loop_isolation(false)]
fn build_bucket(sel: &Vec<Model>, key: u32) -> (b: Bucket)
    ensures
        b@.handicap == key,
        b@.entries == spec_bucket(sel.deep_view(), key),
{
    let ghost sv = sel.deep_view();
    let mut entries: Vec<GroupedEntry> = Vec::new();
    let mut t: usize = 0;
    proof {
        assert(sv.take(0) =~= Seq::<ModelV>::empty());
        assert(entries.deep_view() =~= Seq::<GroupedEntryV>::empty());
    }
    while t < sel.len()
        invariant
            t <= sel.len(),
            entries.deep_view() == spec_bucket(sv.take(t as int), key),
        decreases sel.len() - t,
    {
        proof {
            assert(sv.take(t + 1).drop_last() =~= sv.take(t as int));
            assert(sv.take(t + 1).last() == sv[t as int]);
            assert(sv[t as int] == sel@[t as int]@);
        }
        let m = &sel[t];
        if m.handicap == key {
            let e = GroupedEntry { name: copy_bytes(&m.name), audit_delta: m.audit_delta };
            proof {
                assert(e@ == spec_entry_of(sv[t as int]));
            }
            let mut j: usize = entries.len();
            while j > 0 && !lex_le_bytes(&entries[j - 1].name, &e.name)
                invariant
                    j <= entries.len(),
                    forall|idx: int|
                        j <= idx < entries.deep_view().len() ==> !lex_le(
                            (#[trigger] entries.deep_view()[idx]).name,
                            e@.name,
                        ),
                decreases j,
            {
                proof {
                    assert(entries.deep_view()[j - 1].name == entries@[j - 1].name@);
                }
                j = j - 1;
            }
            let ghost eprev = entries;
            let ghost esnap = e;
            proof {
                if j > 0 {
                    assert(entries.deep_view()[j - 1].name == entries@[j - 1].name@);
                }
            }
            entries.insert(j, e);
            proof {
                lemma_vec_insert_deep_view(eprev, entries, j as int, esnap);
                lemma_insert_by_name_at(eprev.deep_view(), esnap@, j as int);
            }
        }
        t = t + 1;
    }
    proof {
        assert(sv.take(sel.len() as int) =~= sv);
    }
    Bucket { handicap: key, entries }
}

/// Builds one class section: the catalog label with the class's buckets in
/// strictly descending handicap order.
#[verifier::loop_isolation(false)]
fn build_section(models: &Vec<Model>, cat: &ClassCategory) -> (sec: ClassSection)
    ensures
        spec_section_ok(sec@, models.deep_view(), cat@),
{
    let sel = select_members(models, &cat.flag);
    let ghost selv = sel.deep_view();
    let keys = collect_keys(&sel);
    let mut buckets: Vec<Bucket> = Vec::new();
    let mut j: usize = 0;
    while j < keys.len()
        invariant
            j <= keys.len(),
            buckets.deep_view().len() == j,
            forall|a: int|
                0 <= a < j ==> (#[trigger] buckets.deep_view()[a]).handicap == keys@[a],
            forall|a: int|
                0 <= a < j ==> (#[trigger] buckets.deep_view()[a]).entries == spec_bucket(
                    selv,
                    keys@[a],
                ),
        decreases keys.len() - j,
    {
        let b = build_bucket(&sel, keys[j]);
        let ghost bsnap = b;
        let ghost bprev = buckets;
        buckets.push(b);
        proof {
            lemma_vec_push_deep_view(bprev, buckets, bsnap);
        }
        j = j + 1;
    }
    let sec = ClassSection { label: copy_bytes(&cat.label), buckets };
    proof {
        let bs = sec@.buckets;
        assert forall|a: int| 0 <= a < bs.len() implies (#[trigger] bs[a]).entries.len() > 0 by {
            lemma_bucket_nonempty(selv, bs[a].handicap);
        }
        assert forall|a: int| 0 <= a < bs.len() implies spec_sorted_by_name(
            (#[trigger] bs[a]).entries,
        ) by {
            lemma_bucket_sorted(selv, bs[a].handicap);
        }
        assert forall|i: int| 0 <= i < selv.len() implies spec_has_bucket(
            bs,
            (#[trigger] selv[i]).handicap,
        ) by {
            let idx = choose|idx: int| 0 <= idx < keys@.len() && keys@[idx] == selv[i].handicap;
            assert(bs[idx].handicap == selv[i].handicap);
        }
    }
    sec
}

/// Groups the roster into one section per catalog class.
///
/// The output has one section per catalog entry, in the catalog's own
/// order; each section satisfies [`spec_section_ok`] against the roster:
/// buckets keyed by exact raw handicap in strictly descending order, each
/// bucket's entries the class members with that handicap in ascending name
/// order, change-highlight flags carried through.
pub fn group(models: &Vec<Model>, catalog: &Vec<ClassCategory>) -> (out: Vec<ClassSection>)
    ensures
        out.deep_view().len() == catalog@.len(),
        forall|c: int|
            0 <= c < catalog@.len() ==> spec_section_ok(
                #[trigger] out.deep_view()[c],
                models.deep_view(),
                catalog.deep_view()[c],
            ),
{
    let mut out: Vec<ClassSection> = Vec::new();
    let mut c: usize = 0;
    while c < catalog.len()
        invariant
            c <= catalog.len(),
            out.deep_view().len() == c,
            forall|a: int|
                0 <= a < c ==> spec_section_ok(
                    #[trigger] out.deep_view()[a],
                    models.deep_view(),
                    catalog.deep_view()[a],
                ),
        decreases catalog.len() - c,
    {
        let sec = build_section(models, &catalog[c]);
        proof {
            assert(catalog.deep_view()[c as int] == catalog@[c as int]@);
        }
        let ghost ssnap = sec;
        let ghost oprev = out;
        out.push(sec);
        proof {
            lemma_vec_push_deep_view(oprev, out, ssnap);
        }
        c = c + 1;
    }
    out
}

} // verus!
