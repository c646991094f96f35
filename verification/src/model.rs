//! The roster record consumed by both engine components.

use crate::text::bytes_eq;
use vstd::prelude::*;

verus! {

/// One row of the input roster: a glider model with its raw handicap, its
/// class memberships, and a precomputed change-highlight flag.
///
/// The ingestion side guarantees a non-empty `name` and a well-typed
/// `handicap`; the engine itself places no requirement on either.
#[derive(Debug, PartialEq, Eq)]
pub struct Model {
    /// Glider type designation, UTF-8 bytes. Not unique across rows: a
    /// re-certification may add a second row under the same name.
    pub name: Vec<u8>,
    /// Raw performance handicap. Bucket keys and cutoff tests use this value
    /// exactly; only the competition view rescales it.
    pub handicap: u32,
    /// The class flags this model carries (e.g. the bytes of "15" or "Club").
    /// A model may belong to several classes at once.
    pub class_flags: Vec<Vec<u8>>,
    /// True when the row should be highlighted as new or changed since the
    /// prior edition. Computed upstream; the engine carries it through.
    pub audit_delta: bool,
}

/// Mathematical image of a [`Model`].
pub ghost struct ModelV {
    pub name: Seq<u8>,
    pub handicap: u32,
    pub class_flags: Seq<Seq<u8>>,
    pub audit_delta: bool,
}

impl View for Model {
    type V = ModelV;

    open spec fn view(&self) -> ModelV {
        ModelV {
            name: self.name@,
            handicap: self.handicap,
            class_flags: self.class_flags.deep_view(),
            audit_delta: self.audit_delta,
        }
    }
}

impl DeepView for Model {
    type V = ModelV;

    open spec fn deep_view(&self) -> ModelV {
        self.view()
    }
}

/// The deep view of a byte vector is its view: deeply viewing a `u8` leaves
/// it unchanged. Registered as a broadcast so nested views collapse.
pub broadcast proof fn lemma_bytes_deep_view(v: Vec<u8>)
    ensures
        #[trigger] v.deep_view() == v@,
{
    assert(v.deep_view() =~= v@);
}

/// Pushing onto a vector pushes the element's deep view onto the vector's
/// deep view.
pub proof fn lemma_vec_push_deep_view<T: DeepView>(a: Vec<T>, b: Vec<T>, x: T)
    requires
        b@ == a@.push(x),
    ensures
        b.deep_view() == a.deep_view().push(x.deep_view()),
{
    assert forall|k: int| 0 <= k < b@.len() implies b.deep_view()[k] == a.deep_view().push(
        x.deep_view(),
    )[k] by {
        if k < a@.len() {
            assert(b@[k] == a@[k]);
        } else {
            assert(b@[k] == x);
        }
    }
    assert(b.deep_view() =~= a.deep_view().push(x.deep_view()));
}

/// Inserting into a vector inserts the element's deep view at the same
/// position of the vector's deep view.
pub proof fn lemma_vec_insert_deep_view<T: DeepView>(a: Vec<T>, b: Vec<T>, at: int, x: T)
    requires
        0 <= at <= a@.len(),
        b@ == a@.insert(at, x),
    ensures
        b.deep_view() == a.deep_view().insert(at, x.deep_view()),
{
    a@.insert_ensures(at, x);
    a.deep_view().insert_ensures(at, x.deep_view());
    assert(b@.len() == a@.len() + 1);
    assert forall|k: int| 0 <= k < b@.len() implies b.deep_view()[k] == a.deep_view().insert(
        at,
        x.deep_view(),
    )[k] by {
        if k < at {
            assert(b@[k] == a@[k]);
        } else if k == at {
            assert(b@[k] == x);
        } else {
            assert(a@.insert(at, x)[(k - 1) + 1] == a@[k - 1]);
            assert(a.deep_view().insert(at, x.deep_view())[(k - 1) + 1] == a.deep_view()[k - 1]);
        }
    }
    assert(b.deep_view() =~= a.deep_view().insert(at, x.deep_view()));
}

/// The model carries `flag` among its class flags.
pub open spec fn spec_has_flag(m: ModelV, flag: Seq<u8>) -> bool {
    exists|i: int| 0 <= i < m.class_flags.len() && m.class_flags[i] == flag
}

/// Decides membership: whether `m` carries `flag`.
pub fn has_flag(m: &Model, flag: &Vec<u8>) -> (r: bool)
    ensures
        r == spec_has_flag(m@, flag@),
{
    broadcast use lemma_bytes_deep_view;

    let mut i: usize = 0;
    while i < m.class_flags.len()
        invariant
            i <= m.class_flags.len(),
            forall|j: int| 0 <= j < i ==> m@.class_flags[j] != flag@,
        decreases m.class_flags.len() - i,
    {
        proof {
            assert(m@.class_flags[i as int] =~= m.class_flags[i as int]@);
        }
        if bytes_eq(&m.class_flags[i], flag) {
            proof {
                assert(m@.class_flags[i as int] == flag@);
            }
            return true;
        }
        i = i + 1;
    }
    false
}

/// Copies a byte vector; the engine's outputs never alias the input roster.
pub fn copy_bytes(v: &Vec<u8>) -> (r: Vec<u8>)
    ensures
        r@ == v@,
{
    let mut r: Vec<u8> = Vec::new();
    let mut i: usize = 0;
    while i < v.len()
        invariant
            i <= v.len(),
            r@ == v@.subrange(0, i as int),
        decreases v.len() - i,
    {
        r.push(v[i]);
        proof {
            assert(r@ =~= v@.subrange(0, i + 1));
        }
        i = i + 1;
    }
    proof {
        assert(v@.subrange(0, v@.len() as int) =~= v@);
    }
    r
}

/// Copies a list of byte vectors, preserving its deep view.
pub fn copy_flag_list(v: &Vec<Vec<u8>>) -> (r: Vec<Vec<u8>>)
    ensures
        r.deep_view() == v.deep_view(),
{
    broadcast use lemma_bytes_deep_view;

    let mut r: Vec<Vec<u8>> = Vec::new();
    let mut i: usize = 0;
    proof {
        assert(r.deep_view() =~= v.deep_view().subrange(0, 0));
    }
    while i < v.len()
        invariant
            i <= v.len(),
            r.deep_view() == v.deep_view().subrange(0, i as int),
        decreases v.len() - i,
    {
        let c = copy_bytes(&v[i]);
        let ghost prev = r.deep_view();
        r.push(c);
        proof {
            assert(prev.len() == i);
            assert(r@.len() == i + 1);
            assert(r.deep_view().len() == r@.len());
            assert(r.deep_view().len() == i + 1);
            assert forall|k: int| 0 <= k < i + 1 implies r.deep_view()[k] == v.deep_view()[
                k
            ] by {
                if k < i {
                    assert(r.deep_view()[k] == prev[k]);
                    assert(prev[k] == v.deep_view().subrange(0, i as int)[k]);
                } else {
                    assert(r.deep_view()[k] == r@[k]@);
                    assert(v.deep_view()[k] == v@[k]@);
                }
            }
            assert(r.deep_view() =~= v.deep_view().subrange(0, i + 1));
        }
        i = i + 1;
    }
    proof {
        assert(v.deep_view().subrange(0, v.deep_view().len() as int) =~= v.deep_view());
    }
    r
}

/// Copies a model, preserving its view.
pub fn copy_model(m: &Model) -> (r: Model)
    ensures
        r@ == m@,
{
    Model {
        name: copy_bytes(&m.name),
        handicap: m.handicap,
        class_flags: copy_flag_list(&m.class_flags),
        audit_delta: m.audit_delta,
    }
}

} // verus!
