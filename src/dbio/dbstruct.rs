//! Structures: the schemas that decide which entries a list admits.
use vstd::prelude::*;
use vstd::utf8::encode_utf8;
use crate::apetypes::TypeTag;
use crate::dbio::dbfield::{
    Field,
    FieldCmp,
    bytes_cmp,
    compare_bytes,
    lemma_bytes_cmp_antisym,
    lemma_bytes_cmp_trans,
};

verus! {

broadcast use {vstd::seq_lib::to_multiset_insert, vstd::seq_lib::to_multiset_build};

/// What a requirement means: a field id and the variant that field must hold.
pub struct RequirementV {
    pub field_id: Seq<char>,
    pub field_type: TypeTag,
}

/// One requirement of a structure: a field id and the variant that field must hold.
#[derive(Debug, Clone)]
pub struct Requirement {
    pub field_id: String,
    pub field_type: TypeTag,
}

impl View for Requirement {
    type V = RequirementV;

    open spec fn view(&self) -> RequirementV {
        RequirementV { field_id: self.field_id@, field_type: self.field_type }
    }
}

/// Whether `field` has the id and the variant that `req` names.
pub open spec fn req_meets(req: RequirementV, field: Field) -> bool {
    req.field_id == field.id@ && req.field_type == field.value@.tag()
}

/// Whether some requirement of `reqs` is met by `field`.
pub open spec fn some_req_meets(reqs: Seq<Requirement>, field: Field) -> bool {
    exists|k: int| 0 <= k < reqs.len() && req_meets(#[trigger] reqs[k]@, field)
}

/// Whether every field meets a requirement of `reqs`.
pub open spec fn structure_meets(reqs: Seq<Requirement>, fields: Seq<Field>) -> bool {
    forall|i: int| 0 <= i < fields.len() ==> some_req_meets(reqs, #[trigger] fields[i])
}

/// The views of the requirements.
pub open spec fn req_views(reqs: Seq<Requirement>) -> Seq<RequirementV> {
    Seq::new(reqs.len(), |i: int| reqs[i]@)
}

/// The sort key of a requirement: the bytes of its field id.
pub open spec fn req_key(r: RequirementV) -> Seq<u8> {
    encode_utf8(r.field_id)
}

/// Whether the requirements are ordered by the bytes of their field ids.
pub open spec fn sorted_by_id(reqs: Seq<RequirementV>) -> bool {
    forall|j: int, k: int|
        0 <= j < k < reqs.len() ==> bytes_cmp(req_key(reqs[j]), req_key(reqs[k]))
            != FieldCmp::GreaterThan
}

/// The requirements whose field id has the bytes `key`, in order.
pub open spec fn with_key(reqs: Seq<RequirementV>, key: Seq<u8>) -> Seq<RequirementV> {
    reqs.filter(|r: RequirementV| req_key(r) == key)
}

/// The requirements of one key among a single requirement.
proof fn lemma_with_key_single(x: RequirementV, key: Seq<u8>)
    ensures
        with_key(seq![x], key) == if req_key(x) == key {
            seq![x]
        } else {
            Seq::<RequirementV>::empty()
        },
{
    reveal_with_fuel(Seq::filter, 2);
    assert(seq![x].drop_last() =~= Seq::<RequirementV>::empty());
    if req_key(x) == key {
        assert(Seq::<RequirementV>::empty().push(x) =~= seq![x]);
    }
}

/// Appending a requirement appends it to the requirements of its key.
proof fn lemma_with_key_push(v: Seq<RequirementV>, x: RequirementV, key: Seq<u8>)
    ensures
        with_key(v.push(x), key) == if req_key(x) == key {
            with_key(v, key).push(x)
        } else {
            with_key(v, key)
        },
{
    reveal_with_fuel(Seq::filter, 1);
    assert(v.push(x).drop_last() =~= v);
}

/// Requirements none of which has the key hold no requirement of that key.
proof fn lemma_with_key_absent(b: Seq<RequirementV>, key: Seq<u8>)
    requires
        forall|m: int| 0 <= m < b.len() ==> req_key(#[trigger] b[m]) != key,
    ensures
        with_key(b, key) == Seq::<RequirementV>::empty(),
    decreases b.len(),
{
    reveal(Seq::filter);
    if b.len() > 0 {
        lemma_with_key_absent(b.drop_last(), key);
        assert(req_key(b[b.len() - 1]) != key);
    }
}

/// Requirements that all order after `x` hold none with the key of `x`.
proof fn lemma_with_key_none_after(v: Seq<RequirementV>, j: int, x: RequirementV)
    requires
        0 <= j < v.len(),
        sorted_by_id(v),
        bytes_cmp(req_key(v[j]), req_key(x)) == FieldCmp::GreaterThan,
    ensures
        with_key(v.skip(j), req_key(x)) == Seq::<RequirementV>::empty(),
{
    let b = v.skip(j);
    lemma_bytes_cmp_antisym(req_key(v[j]), req_key(x));
    assert forall|m: int| 0 <= m < b.len() implies req_key(#[trigger] b[m]) != req_key(x) by {
        if m > 0 {
            assert(b[m] == v[j + m]);
            assert(bytes_cmp(req_key(v[j]), req_key(v[j + m])) != FieldCmp::GreaterThan);
        }
    }
    lemma_with_key_absent(b, req_key(x));
}

/// Inserting a requirement after all those that order before or with it, and before the rest,
/// extends its key's requirements at their end and leaves those of other keys as they are.
#[verifier::rlimit(40)]
proof fn lemma_insert_keeps_key_order(v: Seq<RequirementV>, j: int, x: RequirementV, key: Seq<u8>)
    requires
        0 <= j <= v.len(),
        sorted_by_id(v),
        j < v.len() ==> bytes_cmp(req_key(v[j]), req_key(x)) == FieldCmp::GreaterThan,
    ensures
        with_key(v.insert(j, x), key) == if req_key(x) == key {
            with_key(v, key).push(x)
        } else {
            with_key(v, key)
        },
{
    let pred = |r: RequirementV| req_key(r) == key;
    let a = v.take(j);
    let b = v.skip(j);
    assert(v.insert(j, x) =~= a + seq![x] + b);
    assert(v =~= a + b);
    Seq::filter_distributes_over_add(a + seq![x], b, pred);
    Seq::filter_distributes_over_add(a, seq![x], pred);
    Seq::filter_distributes_over_add(a, b, pred);
    lemma_with_key_single(x, key);
    if req_key(x) == key {
        if j < v.len() {
            lemma_with_key_none_after(v, j, x);
        } else {
            assert(b =~= Seq::<RequirementV>::empty());
            lemma_with_key_absent(b, key);
        }
        assert(a.filter(pred) + seq![x] + b.filter(pred) =~= (a.filter(pred) + b.filter(
            pred,
        )).push(x));
    } else {
        assert(a.filter(pred) + Seq::<RequirementV>::empty() + b.filter(pred) =~= a.filter(pred)
            + b.filter(pred));
    }
}

impl Requirement {
    /// A requirement that field `field_id` hold a value of variant `field_type`.
    pub fn new(field_id: &str, field_type: TypeTag) -> (r: Requirement)
        ensures
            r@ == (RequirementV { field_id: field_id@, field_type }),
    {
        Requirement { field_id: field_id.to_owned(), field_type }
    }

    /// Whether `field` has this requirement's id and variant; its payload is not looked at.
    pub fn meets(&self, field: &Field) -> (r: bool)
        ensures
            r == req_meets(self@, *field),
    {
        self.field_id == field.id && self.field_type == crate::apetypes::discriminant(&field.value)
    }

    /// A copy of this requirement.
    pub fn duplicate(&self) -> (r: Requirement)
        ensures
            r@ == self@,
    {
        Requirement { field_id: self.field_id.clone(), field_type: self.field_type }
    }
}

impl PartialEq for Requirement {
    fn eq(&self, other: &Self) -> (r: bool)
        ensures
            r == (self@ == other@),
    {
        self.field_id == other.field_id && self.field_type == other.field_type
    }
}

impl vstd::std_specs::cmp::PartialEqSpecImpl for Requirement {
    open spec fn obeys_eq_spec() -> bool {
        true
    }

    open spec fn eq_spec(&self, other: &Requirement) -> bool {
        self@ == other@
    }
}

/// A structure: an id and requirements ordered by field id.
#[derive(Debug, Clone)]
pub struct Structure {
    pub id: String,
    pub requirements: Vec<Requirement>,
}

impl Structure {
    /// Whether the requirements are ordered by field id.
    pub open spec fn wf(&self) -> bool {
        sorted_by_id(req_views(self.requirements@))
    }

    /// A structure with id `id` whose requirements are those given, ordered by the bytes of their
    /// field ids; requirements with equal ids keep their order.
    pub fn new(id: &str, requirements: Vec<Requirement>) -> (r: Structure)
        ensures
            r.wf(),
            r.id@ == id@,
            req_views(r.requirements@).to_multiset() == req_views(requirements@).to_multiset(),
            forall|key: Seq<u8>|
                #[trigger] with_key(req_views(r.requirements@), key) == with_key(
                    req_views(requirements@),
                    key,
                ),
    {
        let mut sorted: Vec<Requirement> = Vec::new();
        let mut i: usize = 0;
        assert(req_views(requirements@.take(0)) =~= Seq::<RequirementV>::empty());
        assert(req_views(sorted@) =~= Seq::<RequirementV>::empty());
        assert forall|key: Seq<u8>| #[trigger] with_key(req_views(sorted@), key) == with_key(
            req_views(requirements@.take(0)),
            key,
        ) by {}
        while i < requirements.len()
            invariant
                i <= requirements@.len(),
                sorted_by_id(req_views(sorted@)),
                req_views(sorted@).to_multiset() == req_views(
                    requirements@.take(i as int),
                ).to_multiset(),
                forall|key: Seq<u8>|
                    #[trigger] with_key(req_views(sorted@), key) == with_key(
                        req_views(requirements@.take(i as int)),
                        key,
                    ),
            decreases requirements@.len() - i,
        {
            let req = requirements[i].duplicate();
            let key = req.field_id.as_str().as_bytes();
            let mut j: usize = 0;
            while j < sorted.len() && compare_bytes(sorted[j].field_id.as_str().as_bytes(), key)
                != FieldCmp::GreaterThan
                invariant
                    j <= sorted@.len(),
                    key@ == req_key(req@),
                    forall|k: int|
                        0 <= k < j ==> bytes_cmp(req_key(#[trigger] sorted@[k]@), req_key(req@))
                            != FieldCmp::GreaterThan,
                decreases sorted@.len() - j,
            {
                j = j + 1;
            }
            let ghost old_sorted = req_views(sorted@);
            let ghost x = req@;
            proof {
                if j < sorted@.len() {
                    assert(bytes_cmp(req_key(sorted@[j as int]@), req_key(x)) == FieldCmp::GreaterThan);
                }
            }
            proof {
                let w = req_views(requirements@.take(i + 1));
                assert(w =~= req_views(requirements@.take(i as int)).push(x));
                assert(w.drop_last() =~= req_views(requirements@.take(i as int)));
                assert forall|key: Seq<u8>| #[trigger] with_key(old_sorted.insert(j as int, x), key)
                    == with_key(w, key) by {
                    lemma_insert_keeps_key_order(old_sorted, j as int, x, key);
                    lemma_with_key_push(req_views(requirements@.take(i as int)), x, key);
                    if j < sorted@.len() {
                        assert(old_sorted[j as int] == sorted@[j as int]@);
                    }
                }
            }
            sorted.insert(j, req);
            proof {
                assert(req_views(sorted@) =~= old_sorted.insert(j as int, x));
                assert(req_views(requirements@.take(i + 1)) =~= req_views(
                    requirements@.take(i as int),
                ).push(x));
                let v = req_views(sorted@);
                assert forall|a: int, b: int| 0 <= a < b < v.len() implies bytes_cmp(
                    req_key(v[a]),
                    req_key(v[b]),
                ) != FieldCmp::GreaterThan by {
                    if a < j && b == j {
                        assert(v[a] == sorted@[a]@);
                    } else if a < j && b > j {
                        assert(v[a] == old_sorted[a]);
                        assert(v[b] == old_sorted[b - 1]);
                        lemma_bytes_cmp_antisym(req_key(old_sorted[j as int]), req_key(x));
                        lemma_bytes_cmp_trans(req_key(v[a]), req_key(x), req_key(old_sorted[j as int]));
                        if b - 1 > j {
                            lemma_bytes_cmp_trans(req_key(v[a]), req_key(old_sorted[j as int]), req_key(v[b]));
                        }
                    } else if a == j {
                        assert(v[b] == old_sorted[b - 1]);
                        lemma_bytes_cmp_antisym(req_key(old_sorted[j as int]), req_key(x));
                        if b - 1 > j {
                            lemma_bytes_cmp_trans(req_key(x), req_key(old_sorted[j as int]), req_key(v[b]));
                        }
                    } else if a > j {
                        assert(v[a] == old_sorted[a - 1]);
                        assert(v[b] == old_sorted[b - 1]);
                    } else {
                        assert(v[a] == old_sorted[a]);
                        assert(v[b] == old_sorted[b]);
                    }
                }
            }
            i = i + 1;
        }
        assert(requirements@.take(requirements@.len() as int) =~= requirements@);
        Structure { id: id.to_owned(), requirements: sorted }
    }

    /// Whether every field has the id and the variant of one of the requirements.
    pub fn meets(&self, fields: &Vec<Field>) -> (r: bool)
        ensures
            r == structure_meets(self.requirements@, fields@),
    {
        let mut i: usize = 0;
        while i < fields.len()
            invariant
                i <= fields@.len(),
                forall|k: int| 0 <= k < i ==> some_req_meets(self.requirements@, #[trigger] fields@[k]),
            decreases fields@.len() - i,
        {
            let mut found = false;
            let mut j: usize = 0;
            while j < self.requirements.len() && !found
                invariant
                    i < fields@.len(),
                    j <= self.requirements@.len(),
                    found ==> some_req_meets(self.requirements@, fields@[i as int]),
                    !found ==> forall|k: int|
                        0 <= k < j ==> !req_meets(#[trigger] self.requirements@[k]@, fields@[i as int]),
                decreases self.requirements@.len() - j + if found {
                    0int
                } else {
                    1int
                },
            {
                if self.requirements[j].meets(&fields[i]) {
                    found = true;
                } else {
                    j = j + 1;
                }
            }
            if !found {
                assert(!some_req_meets(self.requirements@, fields@[i as int]));
                return false;
            }
            i = i + 1;
        }
        true
    }
}

impl PartialEq for Structure {
    fn eq(&self, other: &Self) -> (r: bool)
        ensures
            r == (self.id@ == other.id@ && req_views(self.requirements@) == req_views(
                other.requirements@,
            )),
    {
        if self.id != other.id || self.requirements.len() != other.requirements.len() {
            proof {
                if self.requirements@.len() != other.requirements@.len() {
                    assert(req_views(self.requirements@).len() != req_views(other.requirements@).len());
                }
            }
            return false;
        }
        let mut k: usize = 0;
        while k < self.requirements.len()
            invariant
                k <= self.requirements@.len(),
                self.requirements@.len() == other.requirements@.len(),
                forall|m: int| 0 <= m < k ==> self.requirements@[m]@ == other.requirements@[m]@,
            decreases self.requirements@.len() - k,
        {
            if self.requirements[k] != other.requirements[k] {
                assert(req_views(self.requirements@)[k as int] != req_views(other.requirements@)[k as int]);
                return false;
            }
            k = k + 1;
        }
        assert(req_views(self.requirements@) =~= req_views(other.requirements@));
        true
    }
}

impl vstd::std_specs::cmp::PartialEqSpecImpl for Structure {
    open spec fn obeys_eq_spec() -> bool {
        true
    }

    open spec fn eq_spec(&self, other: &Structure) -> bool {
        self.id@ == other.id@ && req_views(self.requirements@) == req_views(other.requirements@)
    }
}

} // verus!
