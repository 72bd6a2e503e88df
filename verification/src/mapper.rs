use vstd::prelude::*;

use crate::store::{DocModel, Error};
use crate::value::{
    lemma_key_idx, lemma_pairs_view, pairs_view, spec_get, spec_key_idx, spec_tag_of, Document,
    SpecVal, Value,
};
pub use crate::value::TypeTag;

verus! {

broadcast use {
    vstd::std_specs::vec::group_vec_axioms,
    vstd::seq::group_seq_axioms,
    vstd::seq_lib::group_seq_lib_default,
    crate::value::lemma_pairs_view,
    crate::value::lemma_key_idx,
};

/// One declared field of a typed record: the document key it maps to, an
/// optional fallback key read when the primary is absent, whether the
/// field must be present, a default used on absence, whether serialization
/// skips an absent field, and the value tag the field expects.
pub struct FieldDesc {
    pub key: String,
    pub alias: Option<String>,
    pub required: bool,
    pub default: Option<Value>,
    pub omit_if_absent: bool,
    pub expected: TypeTag,
}

/// The model of a record image: one optional value per declared field, in
/// schema order; `None` is an absent field.
pub type RecModel = Seq<Option<SpecVal>>;

pub open spec fn rec_model(rec: Seq<Option<Value>>) -> RecModel {
    rec.map(
        |i: int, f: Option<Value>| match f {
            Option::Some(v) => Option::Some(v@),
            Option::None => Option::None,
        },
    )
}

/// What serialization writes: each field in schema order, under its
/// declared key; an absent field is skipped when the descriptor says so
/// and written as Null otherwise.
pub open spec fn spec_to_doc(rec: RecModel, schema: Seq<FieldDesc>) -> DocModel
    decreases schema.len(),
{
    if schema.len() == 0 || rec.len() != schema.len() {
        Seq::empty()
    } else {
        let rest = spec_to_doc(rec.drop_last(), schema.drop_last());
        match rec.last() {
            Option::Some(v) => rest.push((schema.last().key@, v)),
            Option::None => if schema.last().omit_if_absent {
                rest
            } else {
                rest.push((schema.last().key@, SpecVal::Null))
            },
        }
    }
}

/// Where deserialization reads one field: the declared key, falling back
/// to the alias when the primary is absent.
pub open spec fn spec_field_lookup(d: DocModel, desc: FieldDesc) -> Option<SpecVal> {
    match spec_get(d, desc.key@) {
        Option::Some(v) => Option::Some(v),
        Option::None => match desc.alias {
            Option::Some(a) => spec_get(d, a@),
            Option::None => Option::None,
        },
    }
}

/// Whether reading one field succeeds.
pub open spec fn spec_field_ok(d: DocModel, desc: FieldDesc) -> bool {
    match spec_field_lookup(d, desc) {
        Option::Some(v) => spec_tag_of(v) == desc.expected,
        Option::None => desc.default is Some || !desc.required,
    }
}

/// The value reading one field yields, when it succeeds.
pub open spec fn spec_field_val(d: DocModel, desc: FieldDesc) -> Option<SpecVal> {
    match spec_field_lookup(d, desc) {
        Option::Some(v) => Option::Some(v),
        Option::None => match desc.default {
            Option::Some(dv) => Option::Some(dv@),
            Option::None => Option::None,
        },
    }
}

/// Whether reading every field succeeds: deserialization is all or
/// nothing.
pub open spec fn spec_from_ok(d: DocModel, schema: Seq<FieldDesc>) -> bool {
    forall|i: int| 0 <= i < schema.len() ==> spec_field_ok(d, #[trigger] schema[i])
}

/// Serialize a record image against a schema.
pub fn to_document(rec: &Vec<Option<Value>>, schema: &Vec<FieldDesc>) -> (r: Document)
    requires
        rec@.len() == schema@.len(),
    ensures
        r@ == spec_to_doc(rec_model(rec@), schema@),
{
    let n = schema.len();
    let mut fields: Vec<(String, Value)> = Vec::new();
    proof {
        assert(rec_model(rec@).take(0) =~= Seq::<Option<SpecVal>>::empty());
        assert(pairs_view(fields@) =~= spec_to_doc(
            rec_model(rec@).take(0),
            schema@.take(0),
        ));
    }
    let mut i: usize = 0;
    while i < n
        invariant
            rec@.len() == n,
            n == schema@.len(),
            0 <= i <= n,
            pairs_view(fields@) == spec_to_doc(rec_model(rec@).take(i as int), schema@.take(i as int)),
        decreases n - i,
    {
        proof {
            let rm = rec_model(rec@);
            assert(rm.take(i + 1).drop_last() =~= rm.take(i as int));
            assert(schema@.take(i + 1).drop_last() =~= schema@.take(i as int));
            assert(rm.take(i + 1).last() == rm[i as int]);
            assert(schema@.take(i + 1).last() == schema@[i as int]);
        }
        let ghost fields_pre = fields@;
        match &rec[i] {
            Option::Some(v) => {
                fields.push((schema[i].key.clone(), v.deep_copy()));
                proof {
                    lemma_pairs_view(fields@);
                    lemma_pairs_view(fields_pre);
                    assert(pairs_view(fields@) =~= pairs_view(fields_pre).push(
                        (schema@[i as int].key@, rec_model(rec@)[i as int]->Some_0),
                    ));
                }
            },
            Option::None => {
                if !schema[i].omit_if_absent {
                    fields.push((schema[i].key.clone(), Value::Null));
                    proof {
                        lemma_pairs_view(fields@);
                        lemma_pairs_view(fields_pre);
                        assert(pairs_view(fields@) =~= pairs_view(fields_pre).push(
                            (schema@[i as int].key@, SpecVal::Null),
                        ));
                    }
                }
            },
        }
        i += 1;
    }
    proof {
        assert(rec_model(rec@).take(n as int) =~= rec_model(rec@));
        assert(schema@.take(n as int) =~= schema@);
    }
    Document { fields }
}

/// Index of the first field whose read fails, or `schema.len()`.
pub open spec fn spec_first_bad(d: DocModel, schema: Seq<FieldDesc>) -> int
    decreases schema,
{
    if schema.len() == 0 {
        0
    } else if !spec_field_ok(d, schema[0]) {
        0
    } else {
        1 + spec_first_bad(d, schema.drop_first())
    }
}

pub broadcast proof fn lemma_first_bad(d: DocModel, schema: Seq<FieldDesc>)
    ensures
        0 <= #[trigger] spec_first_bad(d, schema) <= schema.len(),
        spec_first_bad(d, schema) < schema.len() ==> !spec_field_ok(
            d,
            schema[spec_first_bad(d, schema)],
        ),
        forall|j: int|
            0 <= j < spec_first_bad(d, schema) ==> spec_field_ok(d, #[trigger] schema[j]),
    decreases schema,
{
    if schema.len() > 0 && spec_field_ok(d, schema[0]) {
        lemma_first_bad(d, schema.drop_first());
        assert forall|j: int|
            0 <= j < spec_first_bad(d, schema) implies spec_field_ok(
            d,
            #[trigger] schema[j],
        ) by {
            if j > 0 {
                assert(schema.drop_first()[j - 1] == schema[j]);
            }
        }
    }
}

/// Deserialize a document against a schema: all or nothing. The first
/// descriptor whose key (and alias) is absent while required without a
/// default fails with `MissingField`; the first whose present value has
/// the wrong tag fails with `TypeMismatch`.
pub fn from_document(doc: &Document, schema: &Vec<FieldDesc>) -> (r: Result<
    Vec<Option<Value>>,
    Error,
>)
    ensures
        match r {
            Ok(out) => spec_from_ok(doc@, schema@) && out@.len() == schema@.len() && forall|
                i: int,
            |
                0 <= i < schema@.len() ==> rec_model(out@)[i] == spec_field_val(
                    doc@,
                    #[trigger] schema@[i],
                ),
            Err(e) => !spec_from_ok(doc@, schema@) && ({
                let b = spec_first_bad(doc@, schema@);
                match spec_field_lookup(doc@, schema@[b]) {
                    Option::Some(v) => e is TypeMismatch && e->TypeMismatch_0@
                        == schema@[b].key@ && e->TypeMismatch_1 == schema@[b].expected
                        && e->TypeMismatch_2 == spec_tag_of(v),
                    Option::None => e is MissingField && e->MissingField_0@ == schema@[b].key@,
                }
            }),
        },
{
    proof {
        lemma_first_bad(doc@, schema@);
    }
    let n = schema.len();
    let mut out: Vec<Option<Value>> = Vec::new();
    let mut i: usize = 0;
    while i < n
        invariant
            n == schema@.len(),
            0 <= i <= n,
            out@.len() == i,
            forall|j: int| 0 <= j < i ==> spec_field_ok(doc@, #[trigger] schema@[j]),
            forall|j: int|
                0 <= j < i ==> rec_model(out@)[j] == spec_field_val(doc@, #[trigger] schema@[j]),
        decreases n - i,
    {
        let desc = &schema[i];
        let looked: Option<&Value> = match doc.get(desc.key.as_str()) {
            Option::Some(v) => Option::Some(v),
            Option::None => match &desc.alias {
                Option::Some(a) => doc.get(a.as_str()),
                Option::None => Option::None,
            },
        };
        assert(match looked {
            Option::Some(v) => spec_field_lookup(doc@, schema@[i as int]) == Option::Some(v@),
            Option::None => spec_field_lookup(doc@, schema@[i as int]) is None,
        });
        let ghost out_pre = out@;
        match looked {
            Option::Some(v) => {
                let actual = v.tag_of();
                let same = match (actual, desc.expected) {
                    (a, b) => a == b,
                };
                if !same {
                    proof {
                        lemma_first_bad(doc@, schema@);
                        let b = spec_first_bad(doc@, schema@);
                        assert(!spec_field_ok(doc@, schema@[i as int]));
                        if b < i {
                            assert(spec_field_ok(doc@, schema@[b]));
                            assert(false);
                        }
                        if b > i {
                            assert(spec_field_ok(doc@, schema@[i as int]));
                            assert(false);
                        }
                    }
                    return Err(Error::TypeMismatch(desc.key.clone(), desc.expected, actual));
                }
                out.push(Option::Some(v.deep_copy()));
            },
            Option::None => {
                match &desc.default {
                    Option::Some(dv) => {
                        out.push(Option::Some(dv.deep_copy()));
                    },
                    Option::None => {
                        if desc.required {
                            proof {
                                lemma_first_bad(doc@, schema@);
                                let b = spec_first_bad(doc@, schema@);
                                assert(!spec_field_ok(doc@, schema@[i as int]));
                                if b < i {
                                    assert(spec_field_ok(doc@, schema@[b]));
                                    assert(false);
                                }
                                if b > i {
                                    assert(spec_field_ok(doc@, schema@[i as int]));
                                    assert(false);
                                }
                            }
                            return Err(Error::MissingField(desc.key.clone()));
                        }
                        out.push(Option::None);
                    },
                }
            },
        }
        proof {
            assert forall|j: int|
                0 <= j < i + 1 implies rec_model(out@)[j] == spec_field_val(
                doc@,
                #[trigger] schema@[j],
            ) by {
                if j < i {
                    assert(out@[j] == out_pre[j]);
                }
            }
        }
        i += 1;
    }
    Ok(out)
}

/// A record whose fields are all present with their declared tags reads
/// back exactly as it was written: `from_document` of `to_document` is the
/// identity on such records, under a schema whose keys are distinct.
pub proof fn lemma_typed_round_trip(rec: RecModel, schema: Seq<FieldDesc>)
    requires
        rec.len() == schema.len(),
        forall|i: int, j: int|
            0 <= i < j < schema.len() ==> (#[trigger] schema[i]).key@ != (#[trigger] schema[j]).key@,
        forall|i: int|
            0 <= i < rec.len() ==> (#[trigger] rec[i]) is Some && spec_tag_of(rec[i]->Some_0)
                == schema[i].expected,
    ensures
        spec_from_ok(spec_to_doc(rec, schema), schema),
        forall|i: int|
            0 <= i < schema.len() ==> spec_field_val(
                spec_to_doc(rec, schema),
                #[trigger] schema[i],
            ) == rec[i],
{
    let d = spec_to_doc(rec, schema);
    lemma_to_doc_all_present(rec, schema);
    assert forall|i: int|
        0 <= i < schema.len() implies spec_field_ok(d, #[trigger] schema[i]) && spec_field_val(
        d,
        schema[i],
    ) == rec[i] by {
        lemma_key_idx(d, schema[i].key@);
        let ki = spec_key_idx(d, schema[i].key@);
        assert(d[i] == (schema[i].key@, rec[i]->Some_0));
        if ki < i {
            assert(d[ki].0 == schema[ki].key@);
            assert(schema[ki].key@ != schema[i].key@);
            assert(false);
        }
        if ki > i {
            assert(d[i].0 != schema[i].key@);
            assert(false);
        }
        assert(spec_get(d, schema[i].key@) == Option::Some(rec[i]->Some_0));
    }
}

/// With every field present, serialization writes exactly one pair per
/// descriptor, in schema order.
pub proof fn lemma_to_doc_all_present(rec: RecModel, schema: Seq<FieldDesc>)
    requires
        rec.len() == schema.len(),
        forall|i: int| 0 <= i < rec.len() ==> (#[trigger] rec[i]) is Some,
    ensures
        spec_to_doc(rec, schema).len() == schema.len(),
        forall|i: int|
            0 <= i < schema.len() ==> spec_to_doc(rec, schema)[i] == (
                (#[trigger] schema[i]).key@,
                rec[i]->Some_0,
            ),
    decreases schema.len(),
{
    if schema.len() > 0 {
        assert forall|i: int|
            0 <= i < rec.drop_last().len() implies (#[trigger] rec.drop_last()[i]) is Some by {
            assert(rec.drop_last()[i] == rec[i]);
        }
        lemma_to_doc_all_present(rec.drop_last(), schema.drop_last());
        assert forall|i: int|
            0 <= i < schema.len() implies spec_to_doc(rec, schema)[i] == (
            (#[trigger] schema[i]).key@,
            rec[i]->Some_0,
        ) by {
            if i < schema.len() - 1 {
                assert(schema.drop_last()[i] == schema[i]);
                assert(rec.drop_last()[i] == rec[i]);
            }
        }
    }
}

} // verus!
