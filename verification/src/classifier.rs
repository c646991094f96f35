//! Competition classifier: filters the roster to the members of one
//! competition class at or above its cutoff, and rescales their handicaps
//! against the class reference value.
//!
//! The surviving entries keep the relative order of the input roster (a
//! stable filter); the raw handicap is never mutated — rescaling builds a
//! fresh entry whose score is the exact ratio of raw handicap to reference.

use crate::model::{
    copy_bytes, copy_flag_list, has_flag, lemma_vec_push_deep_view, Model,
    ModelV, spec_has_flag,
};
use vstd::prelude::*;

verus! {

/// An exact rescaled handicap: the ratio `num / den` of a raw handicap to a
/// class reference value. Kept as a ratio so the engine loses no precision;
/// rendering may round as late as it likes.
#[derive(Clone, Copy, PartialEq, Eq, Structural, Debug)]
pub struct Score {
    /// The raw handicap of the source model.
    pub num: u32,
    /// The reference value of the competition class.
    pub den: u32,
}

/// `num / den` rounded half-up to thousandths, as an integer count of
/// thousandths.
pub open spec fn spec_thousandths(s: Score) -> int {
    (2000 * s.num + s.den) / (2 * s.den)
}

impl Score {
    /// The score as a count of thousandths, rounded half-up: `1.0` is `1000`.
    pub fn thousandths(&self) -> (r: u64)
        requires
            self.den > 0,
        ensures
            r == spec_thousandths(*self),
    {
        let n: u64 = 2000u64 * (self.num as u64) + (self.den as u64);
        let d: u64 = 2u64 * (self.den as u64);
        n / d
    }
}

/// External configuration of one competition class.
#[derive(Debug, PartialEq, Eq)]
pub struct ClassSpec {
    /// Human-readable class name, UTF-8 bytes.
    pub title: Vec<u8>,
    /// Baseline handicap the raw handicaps are divided by. Guaranteed
    /// non-zero by configuration, not validated here.
    pub reference: u32,
    /// Minimum raw handicap (inclusive) for eligibility.
    pub cutoff: u32,
    /// Membership predicate: a model belongs to this class when it carries
    /// this flag.
    pub flag: Vec<u8>,
}

/// Mathematical image of a [`ClassSpec`].
pub ghost struct ClassSpecV {
    pub title: Seq<u8>,
    pub reference: u32,
    pub cutoff: u32,
    pub flag: Seq<u8>,
}

impl View for ClassSpec {
    type V = ClassSpecV;

    open spec fn view(&self) -> ClassSpecV {
        ClassSpecV {
            title: self.title@,
            reference: self.reference,
            cutoff: self.cutoff,
            flag: self.flag@,
        }
    }
}

/// One surviving entry of a competition class: the identity fields of its
/// source model with the handicap rescaled.
#[derive(Debug, PartialEq, Eq)]
pub struct RescaledEntry {
    /// Glider type designation of the source model.
    pub name: Vec<u8>,
    /// Class flags of the source model, carried through unchanged.
    pub class_flags: Vec<Vec<u8>>,
    /// The rescaled handicap: raw handicap over class reference.
    pub score: Score,
}

/// Mathematical image of a [`RescaledEntry`].
pub ghost struct RescaledEntryV {
    pub name: Seq<u8>,
    pub class_flags: Seq<Seq<u8>>,
    pub score: Score,
}

impl View for RescaledEntry {
    type V = RescaledEntryV;

    open spec fn view(&self) -> RescaledEntryV {
        RescaledEntryV {
            name: self.name@,
            class_flags: self.class_flags.deep_view(),
            score: self.score,
        }
    }
}

impl DeepView for RescaledEntry {
    type V = RescaledEntryV;

    open spec fn deep_view(&self) -> RescaledEntryV {
        self.view()
    }
}

/// The eligibility view of one competition class.
#[derive(Debug, PartialEq, Eq)]
pub struct CompetitionClass {
    /// Human-readable class name, reported as metadata.
    pub title: Vec<u8>,
    /// The reference value the entries were rescaled by.
    pub reference: u32,
    /// The cutoff that was applied, reported as metadata.
    pub cutoff: u32,
    /// Surviving entries, in roster order.
    pub entries: Vec<RescaledEntry>,
}

/// A model is eligible for a class when it carries the class flag and its
/// raw handicap is at or above the cutoff (the boundary is inclusive).
pub open spec fn spec_eligible(m: ModelV, cs: ClassSpecV) -> bool {
    spec_has_flag(m, cs.flag) && m.handicap >= cs.cutoff
}

/// The entry derived from an eligible model: same identity, handicap
/// replaced by the exact ratio raw / reference.
pub open spec fn spec_rescale(m: ModelV, cs: ClassSpecV) -> RescaledEntryV {
    RescaledEntryV {
        name: m.name,
        class_flags: m.class_flags,
        score: Score { num: m.handicap, den: cs.reference },
    }
}

/// The entry list of a competition class: the eligible models of the
/// roster, in roster order, each rescaled.
pub open spec fn spec_entries(ms: Seq<ModelV>, cs: ClassSpecV) -> Seq<RescaledEntryV>
    decreases ms.len(),
{
    if ms.len() == 0 {
        Seq::empty()
    } else {
        let rest = spec_entries(ms.drop_last(), cs);
        if spec_eligible(ms.last(), cs) {
            rest.push(spec_rescale(ms.last(), cs))
        } else {
            rest
        }
    }
}

/// Law: entries come only from eligible models. Every entry of
/// [`spec_entries`] is the rescaling of some roster model that carries the
/// class flag and sits at or above the cutoff; a model below the cutoff
/// contributes no entry.
pub proof fn lemma_entries_from_eligible(ms: Seq<ModelV>, cs: ClassSpecV, j: int)
    requires
        0 <= j < spec_entries(ms, cs).len(),
    ensures
        exists|i: int|
            0 <= i < ms.len() && spec_eligible(ms[i], cs) && spec_entries(ms, cs)[j]
                == spec_rescale(ms[i], cs),
    decreases ms.len(),
{
    let out = spec_entries(ms, cs);
    let rest = spec_entries(ms.drop_last(), cs);
    if spec_eligible(ms.last(), cs) && j == rest.len() {
        let i = ms.len() - 1;
        assert(ms[i] == ms.last());
        assert(0 <= i < ms.len() && spec_eligible(ms[i], cs) && out[j] == spec_rescale(ms[i], cs));
    } else {
        assert(out[j] == rest[j]);
        lemma_entries_from_eligible(ms.drop_last(), cs, j);
        let i = choose|i: int|
            0 <= i < ms.drop_last().len() && spec_eligible(ms.drop_last()[i], cs) && rest[j]
                == spec_rescale(ms.drop_last()[i], cs);
        assert(ms.drop_last()[i] == ms[i]);
        assert(0 <= i < ms.len() && spec_eligible(ms[i], cs) && out[j] == spec_rescale(ms[i], cs));
    }
}

/// Law: rescale correctness and cutoff exclusion, per entry. Every entry's
/// score is the exact ratio of its source model's raw handicap to the class
/// reference, and that raw handicap is at or above the cutoff.
pub proof fn lemma_entry_scores(ms: Seq<ModelV>, cs: ClassSpecV, j: int)
    requires
        0 <= j < spec_entries(ms, cs).len(),
    ensures
        spec_entries(ms, cs)[j].score.den == cs.reference,
        spec_entries(ms, cs)[j].score.num >= cs.cutoff,
{
    lemma_entries_from_eligible(ms, cs, j);
}

/// Law: cutoff inclusivity. A model carrying the class flag whose raw
/// handicap is at or above the cutoff — the boundary itself included —
/// appears rescaled among the class entries.
pub proof fn lemma_eligible_model_included(ms: Seq<ModelV>, cs: ClassSpecV, i: int)
    requires
        0 <= i < ms.len(),
        spec_eligible(ms[i], cs),
    ensures
        spec_entries(ms, cs).contains(spec_rescale(ms[i], cs)),
    decreases ms.len(),
{
    let out = spec_entries(ms, cs);
    let rest = spec_entries(ms.drop_last(), cs);
    if i == ms.len() - 1 {
        assert(ms[i] == ms.last());
        assert(out[out.len() - 1] == spec_rescale(ms[i], cs));
    } else {
        assert(ms.drop_last()[i] == ms[i]);
        lemma_eligible_model_included(ms.drop_last(), cs, i);
        let k = choose|k: int| 0 <= k < rest.len() && rest[k] == spec_rescale(ms[i], cs);
        assert(out[k] == spec_rescale(ms[i], cs));
    }
}

/// Law: membership independence. A model eligible for two classes appears,
/// independently rescaled, in each class's entries.
pub proof fn lemma_membership_independent(
    ms: Seq<ModelV>,
    a: ClassSpecV,
    b: ClassSpecV,
    i: int,
)
    requires
        0 <= i < ms.len(),
        spec_eligible(ms[i], a),
        spec_eligible(ms[i], b),
    ensures
        spec_entries(ms, a).contains(spec_rescale(ms[i], a)),
        spec_entries(ms, b).contains(spec_rescale(ms[i], b)),
{
    lemma_eligible_model_included(ms, a, i);
    lemma_eligible_model_included(ms, b, i);
}

/// Law: a class flag that no roster model carries yields an empty entry
/// list — an empty class is not an error.
pub proof fn lemma_no_members_no_entries(ms: Seq<ModelV>, cs: ClassSpecV)
    requires
        forall|i: int| 0 <= i < ms.len() ==> !spec_has_flag(ms[i], cs.flag),
    ensures
        spec_entries(ms, cs) == Seq::<RescaledEntryV>::empty(),
    decreases ms.len(),
{
    if ms.len() > 0 {
        assert(!spec_has_flag(ms[ms.len() - 1], cs.flag));
        assert forall|i: int| 0 <= i < ms.drop_last().len() implies !spec_has_flag(
            ms.drop_last()[i],
            cs.flag,
        ) by {
            assert(ms.drop_last()[i] == ms[i]);
        }
        lemma_no_members_no_entries(ms.drop_last(), cs);
    }
}

/// Builds the eligibility view of one competition class from the roster.
///
/// The entries are exactly the models carrying the class flag whose raw
/// handicap is at or above the cutoff, in roster order, each with its
/// handicap rescaled by the class reference; title, cutoff and reference are
/// passed through as metadata.
pub fn classify(models: &Vec<Model>, cs: &ClassSpec) -> (c: CompetitionClass)
    ensures
        c.title@ == cs@.title,
        c.reference == cs@.reference,
        c.cutoff == cs@.cutoff,
        c.entries.deep_view() == spec_entries(models.deep_view(), cs@),
{
    let ghost msv = models.deep_view();
    let mut entries: Vec<RescaledEntry> = Vec::new();
    let mut i: usize = 0;
    proof {
        assert(msv.take(0) =~= Seq::<ModelV>::empty());
        assert(entries.deep_view() =~= Seq::<RescaledEntryV>::empty());
    }
    while i < models.len()
        invariant
            i <= models.len(),
            msv == models.deep_view(),
            msv.len() == models.len(),
            entries.deep_view() == spec_entries(msv.take(i as int), cs@),
        decreases models.len() - i,
    {
        proof {
            assert(msv.take(i + 1).drop_last() =~= msv.take(i as int));
            assert(msv.take(i + 1).last() == msv[i as int]);
            assert(msv[i as int] == models@[i as int]@);
        }
        let m = &models[i];
        let flag_hit = has_flag(m, &cs.flag);
        if flag_hit && m.handicap >= cs.cutoff {
            let e = RescaledEntry {
                name: copy_bytes(&m.name),
                class_flags: copy_flag_list(&m.class_flags),
                score: Score { num: m.handicap, den: cs.reference },
            };
            proof {
                assert(e@ == spec_rescale(msv[i as int], cs@));
            }
            let ghost esnap = e;
            let ghost prev = entries;
            entries.push(e);
            proof {
                lemma_vec_push_deep_view(prev, entries, esnap);
            }
        }
        i = i + 1;
    }
    proof {
        assert(msv.take(models.len() as int) =~= msv);
    }
    CompetitionClass {
        title: copy_bytes(&cs.title),
        reference: cs.reference,
        cutoff: cs.cutoff,
        entries,
    }
}

} // verus!
