use vstd::prelude::*;

use crate::value::{
    keys_unique, lemma_arr_view, lemma_key_idx, lemma_pairs_view, pairs_view, spec_get,
    spec_get_path, spec_has_key, spec_key_idx, spec_rank, spec_set, spec_split_dots,
    spec_val_cmp, split_dots, str_eq, strs_view, Cmp, Document, SpecVal, TypeTag, Value,
};

verus! {

broadcast use {
    vstd::std_specs::vec::group_vec_axioms,
    vstd::seq::group_seq_axioms,
    vstd::seq_lib::group_seq_lib_default,
    crate::value::lemma_pairs_view,
    crate::value::lemma_arr_view,
    crate::value::lemma_key_idx,
};

/// The model of one stored document.
pub type DocModel = Seq<(Seq<char>, SpecVal)>;

/// Everything an operation of this crate can refuse.
#[derive(Debug)]
pub enum Error {
    /// An insert supplied an `_id` the collection already holds.
    DuplicateKey,
    /// A pipeline names an auxiliary collection that does not exist.
    ReferenceError(String),
    /// A malformed filter, update or stage parameter.
    InvalidPipeline,
    /// A required field was absent during typed mapping.
    MissingField(String),
    /// A field held a value of the wrong tag during typed mapping: the
    /// key, the tag the schema expects, and the tag that was found.
    TypeMismatch(String, TypeTag, TypeTag),
}

/// Whether a filter operand is an operator document (its first key starts
/// with `'$'`) rather than a literal to compare with.
pub open spec fn spec_is_op_doc(v: SpecVal) -> bool {
    &&& v is Doc
    &&& v->Doc_0.len() > 0
    &&& v->Doc_0[0].0.len() > 0
    &&& v->Doc_0[0].0[0] == '$'
}

/// Whether value `v` matches a type name, as the `$type` operator reads it;
/// `"number"` covers every numeric tag.
pub open spec fn spec_type_matches(v: SpecVal, name: Seq<char>) -> bool {
    if name == "number"@ {
        v is Int32 || v is Int64 || v is Double
    } else if name == "int"@ {
        v is Int32
    } else if name == "long"@ {
        v is Int64
    } else if name == "double"@ {
        v is Double
    } else if name == "string"@ {
        v is Str
    } else if name == "bool"@ {
        v is Bool
    } else if name == "null"@ {
        v is Null
    } else if name == "date"@ {
        v is DateTime
    } else if name == "binData"@ {
        v is Binary
    } else if name == "objectId"@ {
        v is ObjectId
    } else if name == "array"@ {
        v is Array
    } else if name == "object"@ {
        v is Doc
    } else {
        false
    }
}

/// Whether value `v` satisfies one operator of an operator document. The
/// comparison operators only relate values of the same rank: a string is
/// never above or below a number.
pub open spec fn spec_op_matches(v: SpecVal, op: Seq<char>, operand: SpecVal) -> bool {
    if op == "$gt"@ {
        spec_rank(v) == spec_rank(operand) && spec_val_cmp(v, operand) == Cmp::Gt
    } else if op == "$lt"@ {
        spec_rank(v) == spec_rank(operand) && spec_val_cmp(v, operand) == Cmp::Lt
    } else if op == "$type"@ {
        operand is Str && spec_type_matches(v, operand->Str_0)
    } else {
        false
    }
}

/// The value a filter key addresses: the key is read as a field path,
/// its dot-separated segments walking nested documents.
pub open spec fn spec_filter_lookup(d: DocModel, key: Seq<char>) -> Option<SpecVal> {
    spec_get_path(d, spec_split_dots(key))
}

/// Whether a document satisfies one condition of a filter: an operator
/// document applies each of its operators to the addressed field path, and
/// any other operand is an equality test. A missing field never matches.
pub open spec fn spec_cond_matches(d: DocModel, key: Seq<char>, cond: SpecVal) -> bool {
    if spec_is_op_doc(cond) {
        match spec_filter_lookup(d, key) {
            Some(v) => forall|i: int|
                0 <= i < cond->Doc_0.len() ==> spec_op_matches(
                    v,
                    (#[trigger] cond->Doc_0[i]).0,
                    cond->Doc_0[i].1,
                ),
            None => false,
        }
    } else {
        spec_filter_lookup(d, key) == Some(cond)
    }
}

/// Whether a document satisfies every condition of a filter.
pub open spec fn spec_doc_matches(f: DocModel, d: DocModel) -> bool {
    forall|i: int|
        0 <= i < f.len() ==> spec_cond_matches(d, (#[trigger] f[i]).0, f[i].1)
}

/// Whether every operator key of an operator document is one this crate
/// evaluates, with a string operand where `$type` asks for one.
pub open spec fn spec_ops_wf(ops: DocModel) -> bool {
    forall|i: int|
        0 <= i < ops.len() ==> {
            ||| (#[trigger] ops[i]).0 == "$gt"@
            ||| ops[i].0 == "$lt"@
            ||| (ops[i].0 == "$type"@ && ops[i].1 is Str)
        }
}

/// Whether a filter is well formed: each operator document it holds uses
/// only known operators.
pub open spec fn spec_filter_wf(f: DocModel) -> bool {
    forall|i: int|
        0 <= i < f.len() ==> (spec_is_op_doc((#[trigger] f[i]).1) ==> spec_ops_wf(
            f[i].1->Doc_0,
        ))
}

impl Value {
    /// Whether this value matches the given `$type` name.
    fn type_matches(&self, name: &str) -> (r: bool)
        ensures
            r == spec_type_matches(self@, name@),
    {
        if str_eq(name, "number") {
            matches!(self, Value::Int32(_) | Value::Int64(_) | Value::Double(_))
        } else if str_eq(name, "int") {
            matches!(self, Value::Int32(_))
        } else if str_eq(name, "long") {
            matches!(self, Value::Int64(_))
        } else if str_eq(name, "double") {
            matches!(self, Value::Double(_))
        } else if str_eq(name, "string") {
            matches!(self, Value::Str(_))
        } else if str_eq(name, "bool") {
            matches!(self, Value::Bool(_))
        } else if str_eq(name, "null") {
            matches!(self, Value::Null)
        } else if str_eq(name, "date") {
            matches!(self, Value::DateTime(_))
        } else if str_eq(name, "binData") {
            matches!(self, Value::Binary(_))
        } else if str_eq(name, "objectId") {
            matches!(self, Value::ObjectId(_))
        } else if str_eq(name, "array") {
            matches!(self, Value::Array(_))
        } else if str_eq(name, "object") {
            matches!(self, Value::Doc(_))
        } else {
            false
        }
    }
}

/// Whether the operand is an operator document.
fn is_op_doc(cond: &Value) -> (r: bool)
    ensures
        r == spec_is_op_doc(cond@),
{
    match cond {
        Value::Doc(d) => {
            if d.fields.len() == 0 {
                return false;
            }
            proof {
                lemma_pairs_view(d.fields@);
            }
            let k0 = d.fields[0].0.as_str();
            if k0.unicode_len() == 0 {
                return false;
            }
            let c = k0.get_char(0);
            c as u32 == '$' as u32
        },
        _ => false,
    }
}

impl Document {
    /// Whether this filter document is well formed.
    pub fn filter_wf(&self) -> (r: bool)
        ensures
            r == spec_filter_wf(self@),
    {
        proof {
            lemma_pairs_view(self.fields@);
        }
        let n = self.fields.len();
        let mut i: usize = 0;
        while i < n
            invariant
                n == self.fields@.len(),
                self@.len() == n,
                0 <= i <= n,
                forall|j: int|
                    0 <= j < i ==> (spec_is_op_doc((#[trigger] self@[j]).1) ==> spec_ops_wf(
                        self@[j].1->Doc_0,
                    )),
            decreases n - i,
        {
            proof {
                lemma_pairs_view(self.fields@);
            }
            if is_op_doc(&self.fields[i].1) {
                let ops = match &self.fields[i].1 {
                    Value::Doc(d) => d,
                    _ => { proof { assert(false); } return false; },
                };
                proof {
                    lemma_pairs_view(ops.fields@);
                }
                let ghost gi = i as int;
                assert(self@[gi].1->Doc_0 == ops@);
                let m = ops.fields.len();
                let mut j: usize = 0;
                while j < m
                    invariant
                        0 <= gi < self@.len(),
                        spec_is_op_doc(self@[gi].1),
                        self@[gi].1->Doc_0 == ops@,
                        m == ops.fields@.len(),
                        ops@.len() == m,
                        0 <= j <= m,
                        forall|t: int|
                            0 <= t < j ==> {
                                ||| (#[trigger] ops@[t]).0 == "$gt"@
                                ||| ops@[t].0 == "$lt"@
                                ||| (ops@[t].0 == "$type"@ && ops@[t].1 is Str)
                            },
                    decreases m - j,
                {
                    proof {
                        lemma_pairs_view(ops.fields@);
                    }
                    let ok = ops.fields[j].0.as_str();
                    assert(ops@[j as int].0 == ok@);
                    if str_eq(ok, "$gt") || str_eq(ok, "$lt") {
                    } else if str_eq(ok, "$type") {
                        if !matches!(&ops.fields[j].1, Value::Str(_)) {
                            assert(!spec_ops_wf(self@[gi].1->Doc_0));
                            assert(!spec_filter_wf(self@));
                            return false;
                        }
                    } else {
                        assert(!spec_ops_wf(self@[gi].1->Doc_0));
                        assert(!spec_filter_wf(self@));
                        return false;
                    }
                    j += 1;
                }
                assert(spec_ops_wf(self@[gi].1->Doc_0));
            }
            i += 1;
        }
        true
    }

    /// The value a filter key addresses in this document, reading the key
    /// as a dot-separated field path.
    pub fn get_filter_key<'a>(&'a self, key: &str) -> (r: Option<&'a Value>)
        ensures
            match r {
                Some(v) => spec_filter_lookup(self@, key@) == Some(v@),
                None => spec_filter_lookup(self@, key@) is None,
            },
    {
        let segs = split_dots(key);
        let ghost path = segs@.map(|i: int, s: String| s@);
        proof {
            assert forall|j: int|
                0 <= j < segs@.len() implies path[j] == strs_view(segs@)[j] by {}
            assert(path =~= strs_view(segs@));
        }
        self.get_path(&segs)
    }

    /// Whether this document satisfies the filter.
    pub fn matches_filter(&self, filter: &Document) -> (r: bool)
        requires
            spec_filter_wf(filter@),
        ensures
            r == spec_doc_matches(filter@, self@),
    {
        proof {
            lemma_pairs_view(filter.fields@);
        }
        let n = filter.fields.len();
        let mut i: usize = 0;
        while i < n
            invariant
                spec_filter_wf(filter@),
                n == filter.fields@.len(),
                filter@.len() == n,
                0 <= i <= n,
                forall|j: int|
                    0 <= j < i ==> spec_cond_matches(self@, (#[trigger] filter@[j]).0, filter@[j].1),
            decreases n - i,
        {
            proof {
                lemma_pairs_view(filter.fields@);
            }
            let key = filter.fields[i].0.as_str();
            let cond = &filter.fields[i].1;
            assert(filter@[i as int] == (key@, cond@));
            if is_op_doc(cond) {
                let ops = match cond {
                    Value::Doc(d) => d,
                    _ => { proof { assert(false); } return false; },
                };
                proof {
                    lemma_pairs_view(ops.fields@);
                }
                match self.get_filter_key(key) {
                    None => {
                        assert(!spec_cond_matches(self@, filter@[i as int].0, filter@[i as int].1));
                        return false;
                    },
                    Some(v) => {
                        let ghost gi = i as int;
                        assert(spec_ops_wf(ops@));
                        let m = ops.fields.len();
                        let mut j: usize = 0;
                        while j < m
                            invariant
                                0 <= gi < filter@.len(),
                                filter@[gi].0 == key@,
                                filter@[gi].1 == cond@,
                                spec_is_op_doc(cond@),
                                spec_ops_wf(ops@),
                                cond@->Doc_0 == ops@,
                                spec_filter_lookup(self@, filter@[gi].0) == Some(v@),
                                m == ops.fields@.len(),
                                ops@.len() == m,
                                0 <= j <= m,
                                forall|t: int|
                                    0 <= t < j ==> spec_op_matches(
                                        v@,
                                        (#[trigger] ops@[t]).0,
                                        ops@[t].1,
                                    ),
                            decreases m - j,
                        {
                            proof {
                                lemma_pairs_view(ops.fields@);
                            }
                            let ok = ops.fields[j].0.as_str();
                            let operand = &ops.fields[j].1;
                            assert(ops@[j as int] == (ok@, operand@));
                            let holds = if str_eq(ok, "$gt") {
                                v.rank_of() == operand.rank_of() && matches!(
                                    v.val_cmp(operand),
                                    Cmp::Gt,
                                )
                            } else if str_eq(ok, "$lt") {
                                v.rank_of() == operand.rank_of() && matches!(
                                    v.val_cmp(operand),
                                    Cmp::Lt,
                                )
                            } else {
                                let name = match operand {
                                    Value::Str(s) => s.as_str(),
                                    _ => { proof { assert(false); } return false; },
                                };
                                v.type_matches(name)
                            };
                            if !holds {
                                assert(!spec_op_matches(v@, ops@[j as int].0, ops@[j as int].1));
                                assert(!spec_cond_matches(self@, filter@[gi].0, filter@[gi].1));
                                assert(!spec_doc_matches(filter@, self@));
                                return false;
                            }
                            j += 1;
                        }
                        assert(spec_cond_matches(self@, filter@[gi].0, filter@[gi].1));
                    },
                }
            } else {
                match self.get_filter_key(key) {
                    None => {
                        assert(!spec_cond_matches(self@, filter@[i as int].0, filter@[i as int].1));
                        return false;
                    },
                    Some(v) => {
                        if !v.val_eq(cond) {
                            assert(spec_filter_lookup(self@, filter@[i as int].0) == Some(v@));
                            assert(!spec_cond_matches(self@, filter@[i as int].0, filter@[i as int].1));
                            assert(!spec_doc_matches(filter@, self@));
                            return false;
                        }
                        assert(spec_cond_matches(self@, filter@[i as int].0, filter@[i as int].1));
                    },
                }
            }
            i += 1;
        }
        true
    }
}


/// The models of a sequence of documents.
pub open spec fn models_of(docs: Seq<Document>) -> Seq<DocModel> {
    docs.map(|i: int, d: Document| d@)
}

/// Index of the first document that satisfies the filter, or `s.len()`.
pub open spec fn spec_first_match(s: Seq<DocModel>, f: DocModel) -> int
    decreases s,
{
    if s.len() == 0 {
        0
    } else if spec_doc_matches(f, s[0]) {
        0
    } else {
        1 + spec_first_match(s.drop_first(), f)
    }
}

pub broadcast proof fn lemma_first_match(s: Seq<DocModel>, f: DocModel)
    ensures
        0 <= #[trigger] spec_first_match(s, f) <= s.len(),
        spec_first_match(s, f) < s.len() ==> spec_doc_matches(f, s[spec_first_match(s, f)]),
        forall|j: int| 0 <= j < spec_first_match(s, f) ==> !spec_doc_matches(f, #[trigger] s[j]),
    decreases s,
{
    if s.len() > 0 && !spec_doc_matches(f, s[0]) {
        lemma_first_match(s.drop_first(), f);
        assert forall|j: int|
            0 <= j < spec_first_match(s, f) implies !spec_doc_matches(f, #[trigger] s[j]) by {
            if j > 0 {
                assert(s.drop_first()[j - 1] == s[j]);
            }
        }
    }
}

/// Whether some stored document carries `_id` value `id`.
pub open spec fn coll_has_id(s: Seq<DocModel>, id: SpecVal) -> bool {
    exists|i: int| 0 <= i < s.len() && spec_get(#[trigger] s[i], "_id"@) == Some(id)
}

/// Well-formedness of a collection: every stored document has unique keys,
/// carries an `_id`, and no two documents share an `_id` value.
pub open spec fn coll_wf(s: Seq<DocModel>) -> bool {
    &&& forall|i: int|
        0 <= i < s.len() ==> keys_unique(#[trigger] s[i]) && spec_has_key(s[i], "_id"@)
    &&& forall|i: int, j: int|
        0 <= i < j < s.len() ==> spec_get(#[trigger] s[i], "_id"@) != spec_get(
            #[trigger] s[j],
            "_id"@,
        )
}

/// What `spec_set` does to lookups, key uniqueness and length.
pub broadcast proof fn lemma_spec_set(ps: DocModel, k: Seq<char>, v: SpecVal)
    ensures
        spec_get(#[trigger] spec_set(ps, k, v), k) == Some(v),
        forall|k2: Seq<char>|
            k2 != k ==> spec_get(spec_set(ps, k, v), k2) == spec_get(ps, k2),
        keys_unique(ps) ==> keys_unique(spec_set(ps, k, v)),
        spec_set(ps, k, v).len() == if spec_has_key(ps, k) {
            ps.len() as int
        } else {
            (ps.len() + 1) as int
        },
        spec_has_key(spec_set(ps, k, v), k),
{
    let qs = spec_set(ps, k, v);
    lemma_key_idx(ps, k);
    lemma_key_idx(qs, k);
    let i = spec_key_idx(ps, k);
    if spec_has_key(ps, k) {
        assert(ps[i].0 == k);
        assert forall|j: int| 0 <= j < qs.len() implies (#[trigger] qs[j]).0 == ps[j].0 by {}
        let iq = spec_key_idx(qs, k);
        if iq < i {
            assert(qs[iq].0 == ps[iq].0);
            assert(ps[iq].0 != k);
            assert(false);
        }
        if iq > i {
            assert(qs[i].0 == k);
            assert(false);
        }
        assert(spec_key_idx(qs, k) == i);
        assert(spec_get(qs, k) == Some(v));
        assert forall|k2: Seq<char>|
            k2 != k implies spec_get(spec_set(ps, k, v), k2) == spec_get(ps, k2) by {
            lemma_key_idx(ps, k2);
            lemma_key_idx(qs, k2);
            let a = spec_key_idx(ps, k2);
            let b = spec_key_idx(qs, k2);
            if a < ps.len() {
                if b < a {
                    assert(qs[b].0 == ps[b].0);
                    assert(ps[b].0 != k2);
                    assert(false);
                }
                if b > a {
                    assert(qs[a].0 == ps[a].0);
                    assert(qs[a].0 == k2);
                    assert(false);
                }
                assert(qs[a] == ps[a]);
            } else {
                if b < qs.len() {
                    assert(qs[b].0 == k2);
                    if b < ps.len() {
                        assert(qs[b].0 == ps[b].0);
                        assert(ps[b].0 != k2);
                    }
                    assert(false);
                }
            }
        }
    } else {
        assert(qs == ps.push((k, v)));
        assert forall|j: int| 0 <= j < ps.len() implies (#[trigger] qs[j]).0 == ps[j].0 by {}
        assert(qs[ps.len() as int] == (k, v));
        assert(spec_key_idx(qs, k) == ps.len());
        assert(spec_get(qs, k) == Some(v));
        assert forall|k2: Seq<char>|
            k2 != k implies spec_get(spec_set(ps, k, v), k2) == spec_get(ps, k2) by {
            lemma_key_idx(ps, k2);
            lemma_key_idx(qs, k2);
            let a = spec_key_idx(ps, k2);
            let b = spec_key_idx(qs, k2);
            if a < ps.len() {
                if b < a {
                    assert(qs[b].0 == ps[b].0);
                    assert(ps[b].0 != k2);
                    assert(false);
                }
                if b > a {
                    assert(qs[a].0 == ps[a].0);
                    assert(qs[a].0 == k2);
                    assert(false);
                }
                assert(qs[a] == ps[a]);
            } else {
                if b < qs.len() {
                    assert(qs[b].0 == k2);
                    if b < ps.len() {
                        assert(qs[b].0 == ps[b].0);
                        assert(ps[b].0 != k2);
                    }
                    assert(false);
                }
            }
        }
        if keys_unique(ps) {
            assert forall|x: int, y: int|
                0 <= x < y < qs.len() implies (#[trigger] qs[x]).0 != (#[trigger] qs[y]).0 by {
                if y == ps.len() {
                    assert(qs[y].0 == k);
                    assert(ps[x].0 != k);
                }
            }
        }
    }
}

/// Apply the pairs of a `$set` document left to right.
pub open spec fn spec_apply_set(d: DocModel, sets: DocModel) -> DocModel
    decreases sets,
{
    if sets.len() == 0 {
        d
    } else {
        spec_apply_set(spec_set(d, sets[0].0, sets[0].1), sets.drop_first())
    }
}

/// One more pair applied at the end of a `$set` run.
pub proof fn lemma_apply_set_push(d: DocModel, sets: DocModel, p: (Seq<char>, SpecVal))
    ensures
        spec_apply_set(d, sets.push(p)) == spec_set(
            spec_apply_set(d, sets),
            p.0,
            p.1,
        ),
    decreases sets,
{
    let whole = sets.push(p);
    if sets.len() == 0 {
        assert(whole.len() == 1);
        assert(whole[0] == p);
        assert(whole.drop_first() =~= Seq::<(Seq<char>, SpecVal)>::empty());
        assert(spec_apply_set(d, whole) == spec_apply_set(
            spec_set(d, whole[0].0, whole[0].1),
            whole.drop_first(),
        ));
        assert(spec_apply_set(spec_set(d, p.0, p.1), whole.drop_first()) == spec_set(
            d,
            p.0,
            p.1,
        ));
        assert(spec_apply_set(d, sets) == d);
    } else {
        assert(whole[0] == sets[0]);
        assert(whole.drop_first() =~= sets.drop_first().push(p));
        let d1 = spec_set(d, sets[0].0, sets[0].1);
        assert(spec_apply_set(d, whole) == spec_apply_set(d1, whole.drop_first()));
        lemma_apply_set_push(d1, sets.drop_first(), p);
        assert(spec_apply_set(d1, sets.drop_first().push(p)) == spec_set(
            spec_apply_set(d1, sets.drop_first()),
            p.0,
            p.1,
        ));
        assert(spec_apply_set(d, sets) == spec_apply_set(d1, sets.drop_first()));
    }
}

/// What a whole `$set` run does: every set key reads back its new value,
/// every other key is untouched, and key uniqueness survives.
pub proof fn lemma_apply_set_props(d: DocModel, sets: DocModel)
    ensures
        forall|k2: Seq<char>|
            !spec_has_key(sets, k2) ==> spec_get(spec_apply_set(d, sets), k2) == spec_get(d, k2),
        keys_unique(sets) ==> forall|j: int|
            0 <= j < sets.len() ==> spec_get(
                spec_apply_set(d, sets),
                (#[trigger] sets[j]).0,
            ) == Some(sets[j].1),
        keys_unique(d) ==> keys_unique(spec_apply_set(d, sets)),
    decreases sets,
{
    lemma_key_idx(sets, "_id"@);
    if sets.len() > 0 {
        let d1 = spec_set(d, sets[0].0, sets[0].1);
        lemma_spec_set(d, sets[0].0, sets[0].1);
        lemma_apply_set_props(d1, sets.drop_first());
        assert forall|k2: Seq<char>|
            !spec_has_key(sets, k2) implies spec_get(spec_apply_set(d, sets), k2) == spec_get(
            d,
            k2,
        ) by {
            lemma_key_idx(sets, k2);
            assert(sets[0].0 != k2);
            lemma_key_idx(sets.drop_first(), k2);
            assert forall|t: int|
                0 <= t < sets.drop_first().len() implies (#[trigger] sets.drop_first()[t]).0
                != k2 by {
                assert(sets.drop_first()[t] == sets[t + 1]);
            }
            assert(!spec_has_key(sets.drop_first(), k2));
        }
        if keys_unique(sets) {
            assert forall|x: int, y: int|
                0 <= x < y < sets.drop_first().len() implies (#[trigger] sets.drop_first()[x]).0
                != (#[trigger] sets.drop_first()[y]).0 by {
                assert(sets.drop_first()[x] == sets[x + 1]);
                assert(sets.drop_first()[y] == sets[y + 1]);
            }
            assert forall|j: int|
                0 <= j < sets.len() implies spec_get(
                spec_apply_set(d, sets),
                (#[trigger] sets[j]).0,
            ) == Some(sets[j].1) by {
                if j == 0 {
                    // later pairs never touch sets[0].0 again
                    assert forall|t: int|
                        0 <= t < sets.drop_first().len() implies (#[trigger] sets.drop_first()[
                        t]).0 != sets[0].0 by {
                        assert(sets.drop_first()[t] == sets[t + 1]);
                    }
                    lemma_key_idx(sets.drop_first(), sets[0].0);
                    assert(!spec_has_key(sets.drop_first(), sets[0].0));
                    assert(spec_get(spec_apply_set(d1, sets.drop_first()), sets[0].0)
                        == spec_get(d1, sets[0].0));
                } else {
                    assert(sets.drop_first()[j - 1] == sets[j]);
                }
            }
        }
    }
}

/// A `$set` run whose pairs already read back their values leaves the
/// document exactly as it is.
pub proof fn lemma_apply_set_noop(d: DocModel, sets: DocModel)
    requires
        forall|j: int|
            0 <= j < sets.len() ==> spec_get(d, (#[trigger] sets[j]).0) == Some(sets[j].1),
    ensures
        spec_apply_set(d, sets) == d,
    decreases sets,
{
    if sets.len() > 0 {
        let k = sets[0].0;
        let v = sets[0].1;
        lemma_key_idx(d, k);
        let i = spec_key_idx(d, k);
        assert(spec_get(d, k) == Some(v));
        assert(d[i] == (k, v));
        assert(spec_set(d, k, v) =~= d);
        assert forall|j: int|
            0 <= j < sets.drop_first().len() implies spec_get(
            d,
            (#[trigger] sets.drop_first()[j]).0,
        ) == Some(sets.drop_first()[j].1) by {
            assert(sets.drop_first()[j] == sets[j + 1]);
        }
        lemma_apply_set_noop(d, sets.drop_first());
    }
}

/// Applying one `$set` twice gives what applying it once gives: the second
/// run changes nothing.
pub proof fn lemma_apply_set_idempotent(d: DocModel, sets: DocModel)
    requires
        keys_unique(sets),
    ensures
        spec_apply_set(spec_apply_set(d, sets), sets) == spec_apply_set(d, sets),
{
    lemma_apply_set_props(d, sets);
    lemma_apply_set_noop(spec_apply_set(d, sets), sets);
}


/// Documents kept, in storage order, after removing every match.
pub open spec fn spec_reject(s: Seq<DocModel>, f: DocModel) -> Seq<DocModel> {
    s.filter(|d: DocModel| !spec_doc_matches(f, d))
}

/// Documents that satisfy the filter, in storage order.
pub open spec fn spec_find(s: Seq<DocModel>, f: DocModel) -> Seq<DocModel> {
    s.filter(|d: DocModel| spec_doc_matches(f, d))
}

pub proof fn lemma_spec_find_step(s: Seq<DocModel>, f: DocModel, x: DocModel)
    ensures
        spec_find(s.push(x), f) == if spec_doc_matches(f, x) {
            spec_find(s, f).push(x)
        } else {
            spec_find(s, f)
        },
{
    reveal(Seq::filter);
    assert(s.push(x).drop_last() =~= s);
    assert(s.push(x).last() == x);
}

pub proof fn lemma_spec_reject_step(s: Seq<DocModel>, f: DocModel, x: DocModel)
    ensures
        spec_reject(s.push(x), f) == if !spec_doc_matches(f, x) {
            spec_reject(s, f).push(x)
        } else {
            spec_reject(s, f)
        },
{
    reveal(Seq::filter);
    assert(s.push(x).drop_last() =~= s);
    assert(s.push(x).last() == x);
}

/// A kept subsequence stays well formed: what `delete_many` leaves behind
/// is a collection again.
pub proof fn lemma_reject_wf(s: Seq<DocModel>, f: DocModel)
    requires
        coll_wf(s),
    ensures
        coll_wf(spec_reject(s, f)),
        forall|e: DocModel| #[trigger] spec_reject(s, f).contains(e) ==> s.contains(e),
    decreases s,
{
    broadcast use vstd::seq_lib::group_filter_ensures;

    reveal(Seq::filter);
    if s.len() == 0 {
        assert(s =~= Seq::<DocModel>::empty());
        assert(spec_reject(s, f) =~= Seq::<DocModel>::empty());
    } else {
        let t = s.drop_last();
        let x = s.last();
        assert(coll_wf(t)) by {
            assert forall|i: int|
                0 <= i < t.len() implies keys_unique(#[trigger] t[i]) && spec_has_key(
                t[i],
                "_id"@,
            ) by {
                assert(t[i] == s[i]);
            }
        }
        lemma_reject_wf(t, f);
        assert(t.push(x) =~= s);
        lemma_spec_reject_step(t, f, x);
        let rt = spec_reject(t, f);
        if !spec_doc_matches(f, x) {
            let rs = rt.push(x);
            assert(spec_reject(s, f) == rs);
            assert forall|e: DocModel| #[trigger] rs.contains(e) implies s.contains(e) by {
                if rt.contains(e) {
                    assert(t.contains(e));
                    let w = choose|w: int| 0 <= w < t.len() && t[w] == e;
                    assert(s[w] == e);
                } else {
                    assert(e == x);
                    assert(s[s.len() - 1] == x);
                }
            }
            assert(coll_wf(rs)) by {
                assert forall|i: int, j: int|
                    0 <= i < j < rs.len() implies spec_get(#[trigger] rs[i], "_id"@)
                    != spec_get(#[trigger] rs[j], "_id"@) by {
                    if j == rs.len() - 1 {
                        assert(rs[j] == x);
                        assert(rs[i] == rt[i]);
                        assert(rt.contains(rt[i]));
                        assert(t.contains(rs[i]));
                        let w = choose|w: int| 0 <= w < t.len() && t[w] == rs[i];
                        assert(s[w] == rs[i]);
                        assert(s[s.len() - 1] == x);
                        assert(spec_get(s[w], "_id"@) != spec_get(s[s.len() - 1], "_id"@));
                    } else {
                        assert(rs[i] == rt[i]);
                        assert(rs[j] == rt[j]);
                    }
                }
                assert forall|i: int|
                    0 <= i < rs.len() implies keys_unique(#[trigger] rs[i]) && spec_has_key(
                    rs[i],
                    "_id"@,
                ) by {
                    if i == rs.len() - 1 {
                        assert(rs[i] == x);
                        assert(s[s.len() - 1] == x);
                    } else {
                        assert(rs[i] == rt[i]);
                        assert(rt.contains(rt[i]));
                        assert(t.contains(rt[i]));
                        let w = choose|w: int| 0 <= w < t.len() && t[w] == rt[i];
                        assert(s[w] == rt[i]);
                    }
                }
            }
        } else {
            assert(spec_reject(s, f) == rt);
            assert forall|e: DocModel| #[trigger] rt.contains(e) implies s.contains(e) by {
                assert(t.contains(e));
                let w = choose|w: int| 0 <= w < t.len() && t[w] == e;
                assert(s[w] == e);
            }
        }
    }
}

/// The outcome of `update_one`: whether a document matched, and whether
/// the write changed it.
#[derive(Clone, Copy, PartialEq, Eq, Structural, Debug)]
pub struct UpdateResult {
    pub matched: bool,
    pub modified: bool,
}

/// Whether an update document is well formed: it carries a `$set` operator
/// document with unique keys that leaves `_id` alone.
pub open spec fn spec_update_wf(u: DocModel) -> bool {
    &&& spec_get(u, "$set"@) is Some
    &&& spec_get(u, "$set"@)->Some_0 is Doc
    &&& keys_unique(spec_get(u, "$set"@)->Some_0->Doc_0)
    &&& !spec_has_key(spec_get(u, "$set"@)->Some_0->Doc_0, "_id"@)
}

impl Document {
    /// Whether no key of this document occurs twice.
    pub fn keys_all_unique(&self) -> (r: bool)
        ensures
            r == keys_unique(self@),
    {
        proof {
            lemma_pairs_view(self.fields@);
        }
        let n = self.fields.len();
        let mut i: usize = 0;
        while i < n
            invariant
                n == self.fields@.len(),
                self@.len() == n,
                0 <= i <= n,
                forall|x: int, y: int|
                    0 <= x < y < n && x < i ==> (#[trigger] self@[x]).0 != (#[trigger] self@[y]).0,
            decreases n - i,
        {
            let mut j: usize = i + 1;
            while j < n
                invariant
                    n == self.fields@.len(),
                    self@.len() == n,
                    0 <= i < j <= n,
                    forall|y: int| i < y < j ==> (#[trigger] self@[y]).0 != self@[i as int].0,
                decreases n - j,
            {
                proof {
                    lemma_pairs_view(self.fields@);
                }
                if str_eq(self.fields[i].0.as_str(), self.fields[j].0.as_str()) {
                    assert(self@[i as int].0 == self@[j as int].0);
                    return false;
                }
                j += 1;
            }
            i += 1;
        }
        true
    }
}

/// A named collection's storage: the documents in insertion order.
pub struct Collection {
    pub docs: Vec<Document>,
}

impl View for Collection {
    type V = Seq<DocModel>;

    open spec fn view(&self) -> Seq<DocModel> {
        models_of(self.docs@)
    }
}

impl Collection {
    /// Whether the stored documents form a well-formed collection.
    pub open spec fn wf(&self) -> bool {
        coll_wf(self@)
    }

    /// The empty collection.
    pub fn new() -> (r: Collection)
        ensures
            r@ =~= Seq::<DocModel>::empty(),
            r.wf(),
    {
        Collection { docs: Vec::new() }
    }

    /// How many documents are stored.
    pub fn len(&self) -> (r: usize)
        ensures
            r == self@.len(),
    {
        self.docs.len()
    }

    /// An independent copy of the document at a storage position.
    pub fn doc_at(&self, i: usize) -> (r: Document)
        requires
            i < self@.len(),
        ensures
            r@ == self@[i as int],
    {
        self.docs[i].deep_copy()
    }

    /// Whether some stored document already carries this `_id` value.
    pub fn contains_id(&self, id: &Value) -> (r: bool)
        ensures
            r == coll_has_id(self@, id@),
    {
        let n = self.docs.len();
        let mut i: usize = 0;
        while i < n
            invariant
                n == self.docs@.len(),
                self@.len() == n,
                0 <= i <= n,
                forall|j: int| 0 <= j < i ==> spec_get(#[trigger] self@[j], "_id"@) != Some(id@),
            decreases n - i,
        {
            match self.docs[i].get("_id") {
                Some(v) => {
                    if v.val_eq(id) {
                        assert(spec_get(self@[i as int], "_id"@) == Some(id@));
                        return true;
                    }
                },
                None => {},
            }
            i += 1;
        }
        false
    }

    /// Store a document that already carries an `_id`: refused with
    /// `DuplicateKey` exactly when that `_id` is already present, appended
    /// to the storage otherwise.
    pub fn insert_with_id(&mut self, doc: Document) -> (r: Result<(), Error>)
        requires
            old(self).wf(),
            keys_unique(doc@),
            spec_has_key(doc@, "_id"@),
        ensures
            final(self).wf(),
            coll_has_id(old(self)@, spec_get(doc@, "_id"@)->Some_0) ==> r is Err
                && r->Err_0 is DuplicateKey && final(self)@ == old(self)@,
            !coll_has_id(old(self)@, spec_get(doc@, "_id"@)->Some_0) ==> r is Ok
                && final(self)@ == old(self)@.push(doc@),
    {
        let id = match doc.get("_id") {
            Some(v) => v,
            None => {
                proof {
                    assert(false);
                }
                return Err(Error::DuplicateKey);
            },
        };
        if self.contains_id(id) {
            return Err(Error::DuplicateKey);
        }
        let ghost old_models = self@;
        let ghost doc_model = doc@;
        let ghost id_model = id@;
        self.docs.push(doc);
        proof {
            assert(self@ =~= old_models.push(doc_model));
            assert(spec_get(doc_model, "_id"@) == Some(id_model));
            assert forall|i: int, j: int|
                0 <= i < j < self@.len() implies spec_get(#[trigger] self@[i], "_id"@)
                != spec_get(#[trigger] self@[j], "_id"@) by {
                if j == self@.len() - 1 {
                    assert(self@[i] == old_models[i]);
                    assert(spec_get(old_models[i], "_id"@) != Some(id_model));
                }
            }
        }
        Ok(())
    }

    /// Store a document: its explicit `_id` is honoured, a fresh object id
    /// is injected when it has none, and the effective `_id` comes back.
    pub fn insert(&mut self, doc: Document) -> (r: Result<Value, Error>)
        requires
            old(self).wf(),
            keys_unique(doc@),
        ensures
            final(self).wf(),
            spec_has_key(doc@, "_id"@) ==> {
                let id = spec_get(doc@, "_id"@)->Some_0;
                &&& coll_has_id(old(self)@, id) ==> r is Err && r->Err_0 is DuplicateKey
                    && final(self)@ == old(self)@
                &&& !coll_has_id(old(self)@, id) ==> r is Ok && r->Ok_0@ == id
                    && final(self)@ == old(self)@.push(doc@)
            },
            !spec_has_key(doc@, "_id"@) ==> {
                &&& r is Err ==> r->Err_0 is DuplicateKey && final(self)@ == old(self)@
                &&& r is Ok ==> r->Ok_0@ is ObjectId && !coll_has_id(old(self)@, r->Ok_0@)
                    && final(self)@ == old(self)@.push(
                    spec_set(doc@, "_id"@, r->Ok_0@),
                )
                &&& (forall|v: SpecVal| v is ObjectId ==> !coll_has_id(old(self)@, v))
                    ==> r is Ok
            },
    {
        let has_id = doc.has_key("_id");
        if has_id {
            let id = match doc.get("_id") {
                Some(v) => v.deep_copy(),
                None => {
                    proof {
                        assert(false);
                    }
                    return Err(Error::DuplicateKey);
                },
            };
            match self.insert_with_id(doc) {
                Ok(()) => Ok(id),
                Err(e) => Err(e),
            }
        } else {
            let bytes = fresh_object_id();
            let id = Value::ObjectId(bytes);
            let mut d2 = doc;
            let fresh = id.deep_copy();
            proof {
                lemma_spec_set(d2@, "_id"@, fresh@);
            }
            d2.set("_id", fresh);
            match self.insert_with_id(d2) {
                Ok(()) => Ok(id),
                Err(e) => Err(e),
            }
        }
    }
}

/// Relies on bson::oid::ObjectId::new, which builds a fresh twelve-byte
/// identifier from the time, a per-process random value and a counter, and
/// on ObjectId::bytes handing those twelve bytes back. ObjectId::new reads
/// the system clock and panics on a clock before 1970 or after 2106; that
/// is environmental, not a function of any input.
#[verifier::external_body]
fn fresh_object_id() -> (r: Vec<u8>)
    ensures
        r@.len() == 12,
{
    bson::oid::ObjectId::new().bytes().to_vec()
}


impl Collection {
    /// Copies of every stored document that satisfies the filter, in
    /// storage order; refused when the filter is malformed.
    pub fn find(&self, filter: &Document) -> (r: Result<Vec<Document>, Error>)
        ensures
            match r {
                Ok(out) => spec_filter_wf(filter@) && models_of(out@) == spec_find(
                    self@,
                    filter@,
                ),
                Err(e) => !spec_filter_wf(filter@) && e is InvalidPipeline,
            },
    {
        if !filter.filter_wf() {
            return Err(Error::InvalidPipeline);
        }
        let n = self.docs.len();
        let mut out: Vec<Document> = Vec::new();
        proof {
            reveal(Seq::filter);
            assert(self@.take(0) =~= Seq::<DocModel>::empty());
            assert(models_of(out@) =~= Seq::<DocModel>::empty());
        }
        let mut i: usize = 0;
        while i < n
            invariant
                spec_filter_wf(filter@),
                n == self.docs@.len(),
                self@.len() == n,
                0 <= i <= n,
                models_of(out@) == spec_find(self@.take(i as int), filter@),
            decreases n - i,
        {
            let ghost pre = self@.take(i as int);
            proof {
                assert(self@.take(i + 1) =~= pre.push(self@[i as int]));
                lemma_spec_find_step(pre, filter@, self@[i as int]);
            }
            if self.docs[i].matches_filter(filter) {
                let ghost out_pre = out@;
                out.push(self.docs[i].deep_copy());
                proof {
                    assert(models_of(out@) =~= models_of(out_pre).push(self@[i as int]));
                }
            }
            i += 1;
        }
        proof {
            assert(self@.take(n as int) =~= self@);
        }
        Ok(out)
    }

    /// A copy of the first stored document that satisfies the filter, or
    /// `None`; refused when the filter is malformed.
    pub fn find_one(&self, filter: &Document) -> (r: Result<Option<Document>, Error>)
        ensures
            match r {
                Ok(out) => spec_filter_wf(filter@) && ({
                    let idx = spec_first_match(self@, filter@);
                    match out {
                        Some(d) => idx < self@.len() && d@ == self@[idx],
                        None => idx == self@.len(),
                    }
                }),
                Err(e) => !spec_filter_wf(filter@) && e is InvalidPipeline,
            },
    {
        if !filter.filter_wf() {
            return Err(Error::InvalidPipeline);
        }
        proof {
            lemma_first_match(self@, filter@);
        }
        let n = self.docs.len();
        let mut i: usize = 0;
        while i < n
            invariant
                spec_filter_wf(filter@),
                n == self.docs@.len(),
                self@.len() == n,
                0 <= i <= n,
                forall|j: int| 0 <= j < i ==> !spec_doc_matches(filter@, #[trigger] self@[j]),
            decreases n - i,
        {
            if self.docs[i].matches_filter(filter) {
                proof {
                    lemma_first_match(self@, filter@);
                    let fm = spec_first_match(self@, filter@);
                    if fm < i {
                        assert(!spec_doc_matches(filter@, self@[fm]));
                        assert(false);
                    }
                    if fm > i {
                        assert(!spec_doc_matches(filter@, self@[i as int]));
                        assert(false);
                    }
                }
                return Ok(Some(self.docs[i].deep_copy()));
            }
            i += 1;
        }
        proof {
            lemma_first_match(self@, filter@);
        }
        Ok(None)
    }

    /// Apply a `{"$set": {...}}` update to the first document the filter
    /// matches, writing each named key at top level; reports whether a
    /// document matched and whether it actually changed. Refused when the
    /// filter or the update is malformed.
    pub fn update_one(&mut self, filter: &Document, update: &Document) -> (r: Result<
        UpdateResult,
        Error,
    >)
        requires
            old(self).wf(),
        ensures
            final(self).wf(),
            match r {
                Err(e) => (!spec_filter_wf(filter@) || !spec_update_wf(update@))
                    && e is InvalidPipeline && final(self)@ == old(self)@,
                Ok(ur) => spec_filter_wf(filter@) && spec_update_wf(update@) && ({
                    let idx = spec_first_match(old(self)@, filter@);
                    let sets = spec_get(update@, "$set"@)->Some_0->Doc_0;
                    if idx == old(self)@.len() {
                        ur == (UpdateResult { matched: false, modified: false })
                            && final(self)@ == old(self)@
                    } else {
                        let d2 = spec_apply_set(old(self)@[idx], sets);
                        &&& final(self)@ == old(self)@.update(idx, d2)
                        &&& ur.matched
                        &&& ur.modified == (d2 != old(self)@[idx])
                    }
                }),
            },
    {
        if !filter.filter_wf() {
            return Err(Error::InvalidPipeline);
        }
        let sets_doc = match update.get("$set") {
            Some(Value::Doc(d)) => d,
            _ => {
                return Err(Error::InvalidPipeline);
            },
        };
        if sets_doc.has_key("_id") || !sets_doc.keys_all_unique() {
            return Err(Error::InvalidPipeline);
        }
        assert(spec_update_wf(update@));
        proof {
            lemma_first_match(self@, filter@);
        }
        let n = self.docs.len();
        let mut i: usize = 0;
        while i < n
            invariant
                old(self) == self,
                coll_wf(self@),
                spec_filter_wf(filter@),
                spec_update_wf(update@),
                spec_get(update@, "$set"@) == Some(SpecVal::Doc(sets_doc@)),
                keys_unique(sets_doc@),
                !spec_has_key(sets_doc@, "_id"@),
                n == self.docs@.len(),
                self@.len() == n,
                0 <= i <= n,
                forall|j: int| 0 <= j < i ==> !spec_doc_matches(filter@, #[trigger] self@[j]),
            decreases n - i,
        {
            if self.docs[i].matches_filter(filter) {
                proof {
                    lemma_first_match(self@, filter@);
                    let fm = spec_first_match(self@, filter@);
                    if fm < i {
                        assert(!spec_doc_matches(filter@, self@[fm]));
                        assert(false);
                    }
                    if fm > i {
                        assert(!spec_doc_matches(filter@, self@[i as int]));
                        assert(false);
                    }
                }
                let ghost orig = self@[i as int];
                let ghost sets = sets_doc@;
                let mut d2 = self.docs[i].deep_copy();
                let m = sets_doc.fields.len();
                proof {
                    assert(sets.take(0) =~= Seq::<(Seq<char>, SpecVal)>::empty());
                }
                let mut j: usize = 0;
                while j < m
                    invariant
                        m == sets_doc.fields@.len(),
                        sets == sets_doc@,
                        sets.len() == m,
                        0 <= j <= m,
                        d2@ == spec_apply_set(orig, sets.take(j as int)),
                    decreases m - j,
                {
                    proof {
                        lemma_pairs_view(sets_doc.fields@);
                        assert(sets.take(j + 1) =~= sets.take(j as int).push(sets[j as int]));
                        lemma_apply_set_push(orig, sets.take(j as int), sets[j as int]);
                    }
                    let key = sets_doc.fields[j].0.as_str();
                    let v = sets_doc.fields[j].1.deep_copy();
                    assert(sets[j as int] == (key@, v@));
                    d2.set(key, v);
                    j += 1;
                }
                proof {
                    assert(sets.take(m as int) =~= sets);
                }
                let modified = !self.docs[i].doc_eq(&d2);
                let ghost d2_model = d2@;
                let ghost old_models = self@;
                let ghost old_docs = self.docs@;
                self.docs[i] = d2;
                proof {
                    assert(self.docs@ == old_docs.update(i as int, self.docs@[i as int]));
                    assert(self.docs@[i as int]@ == d2_model);
                    assert forall|j: int|
                        0 <= j < self@.len() implies #[trigger] self@[j] == old_models.update(
                        i as int,
                        d2_model,
                    )[j] by {
                        assert(self@[j] == self.docs@[j]@);
                        if j != i {
                            assert(self.docs@[j] == old_docs[j]);
                            assert(old_models[j] == old_docs[j]@);
                        }
                    }
                    assert(self@ =~= old_models.update(i as int, d2_model));
                    lemma_apply_set_props(orig, sets);
                    assert(spec_get(d2_model, "_id"@) == spec_get(orig, "_id"@));
                    assert forall|x: int, y: int|
                        0 <= x < y < self@.len() implies spec_get(#[trigger] self@[x], "_id"@)
                        != spec_get(#[trigger] self@[y], "_id"@) by {
                        assert(spec_get(old_models[x], "_id"@) != spec_get(old_models[y], "_id"@));
                    }
                    assert(spec_has_key(orig, "_id"@));
                    assert(spec_has_key(d2_model, "_id"@)) by {
                        lemma_key_idx(orig, "_id"@);
                        lemma_key_idx(d2_model, "_id"@);
                        assert(spec_get(d2_model, "_id"@) == spec_get(orig, "_id"@));
                        assert(spec_get(orig, "_id"@) is Some);
                    }
                }
                return Ok(UpdateResult { matched: true, modified });
            }
            i += 1;
        }
        proof {
            lemma_first_match(self@, filter@);
        }
        Ok(UpdateResult { matched: false, modified: false })
    }

    /// Remove the first document the filter matches; how many were removed
    /// (one or none) comes back. Refused when the filter is malformed.
    pub fn delete_one(&mut self, filter: &Document) -> (r: Result<usize, Error>)
        requires
            old(self).wf(),
        ensures
            final(self).wf(),
            match r {
                Err(e) => !spec_filter_wf(filter@) && e is InvalidPipeline && final(self)@
                    == old(self)@,
                Ok(count) => spec_filter_wf(filter@) && ({
                    let idx = spec_first_match(old(self)@, filter@);
                    if idx == old(self)@.len() {
                        count == 0 && final(self)@ == old(self)@
                    } else {
                        count == 1 && final(self)@ == old(self)@.remove(idx)
                    }
                }),
            },
    {
        if !filter.filter_wf() {
            return Err(Error::InvalidPipeline);
        }
        proof {
            lemma_first_match(self@, filter@);
        }
        let n = self.docs.len();
        let mut i: usize = 0;
        while i < n
            invariant
                old(self) == self,
                coll_wf(self@),
                spec_filter_wf(filter@),
                n == self.docs@.len(),
                self@.len() == n,
                0 <= i <= n,
                forall|j: int| 0 <= j < i ==> !spec_doc_matches(filter@, #[trigger] self@[j]),
            decreases n - i,
        {
            if self.docs[i].matches_filter(filter) {
                proof {
                    lemma_first_match(self@, filter@);
                    let fm = spec_first_match(self@, filter@);
                    if fm < i {
                        assert(!spec_doc_matches(filter@, self@[fm]));
                        assert(false);
                    }
                    if fm > i {
                        assert(!spec_doc_matches(filter@, self@[i as int]));
                        assert(false);
                    }
                }
                let ghost old_models = self@;
                let ghost old_docs = self.docs@;
                self.docs.remove(i);
                proof {
                    assert(self.docs@ == old_docs.remove(i as int));
                    assert forall|j: int|
                        0 <= j < self@.len() implies #[trigger] self@[j] == old_models.remove(
                        i as int,
                    )[j] by {
                        assert(self@[j] == self.docs@[j]@);
                        let oj: int = if j < i { j } else { j + 1 };
                        assert(old_docs.remove(i as int)[j] == old_docs[oj]);
                        assert(old_models.remove(i as int)[j] == old_models[oj]);
                        assert(old_models[oj] == old_docs[oj]@);
                    }
                    assert(self@ =~= old_models.remove(i as int));
                    assert forall|x: int, y: int|
                        0 <= x < y < self@.len() implies spec_get(#[trigger] self@[x], "_id"@)
                        != spec_get(#[trigger] self@[y], "_id"@) by {
                        let ox: int = if x < i { x } else { x + 1 };
                        let oy: int = if y < i { y } else { y + 1 };
                        assert(self@[x] == old_models[ox]);
                        assert(self@[y] == old_models[oy]);
                        assert(spec_get(old_models[ox], "_id"@) != spec_get(
                            old_models[oy],
                            "_id"@,
                        ));
                    }
                    assert forall|x: int|
                        0 <= x < self@.len() implies keys_unique(#[trigger] self@[x])
                        && spec_has_key(self@[x], "_id"@) by {
                        let ox: int = if x < i { x } else { x + 1 };
                        assert(self@[x] == old_models[ox]);
                    }
                }
                return Ok(1);
            }
            i += 1;
        }
        proof {
            lemma_first_match(self@, filter@);
        }
        Ok(0)
    }

    /// Remove every document the filter matches; how many were removed
    /// comes back. Refused when the filter is malformed.
    pub fn delete_many(&mut self, filter: &Document) -> (r: Result<usize, Error>)
        requires
            old(self).wf(),
        ensures
            final(self).wf(),
            match r {
                Err(e) => !spec_filter_wf(filter@) && e is InvalidPipeline && final(self)@
                    == old(self)@,
                Ok(count) => spec_filter_wf(filter@) && final(self)@ == spec_reject(
                    old(self)@,
                    filter@,
                ) && count == old(self)@.len() - final(self)@.len(),
            },
    {
        if !filter.filter_wf() {
            return Err(Error::InvalidPipeline);
        }
        let n = self.docs.len();
        let mut out: Vec<Document> = Vec::new();
        proof {
            reveal(Seq::filter);
            assert(self@.take(0) =~= Seq::<DocModel>::empty());
            assert(models_of(out@) =~= Seq::<DocModel>::empty());
        }
        let mut i: usize = 0;
        while i < n
            invariant
                old(self) == self,
                spec_filter_wf(filter@),
                n == self.docs@.len(),
                self@.len() == n,
                0 <= i <= n,
                models_of(out@) == spec_reject(self@.take(i as int), filter@),
                out@.len() <= i,
            decreases n - i,
        {
            let ghost pre = self@.take(i as int);
            proof {
                assert(self@.take(i + 1) =~= pre.push(self@[i as int]));
                lemma_spec_reject_step(pre, filter@, self@[i as int]);
                broadcast use vstd::seq_lib::group_filter_ensures;
            }
            if !self.docs[i].matches_filter(filter) {
                let ghost out_pre = out@;
                out.push(self.docs[i].deep_copy());
                proof {
                    assert(models_of(out@) =~= models_of(out_pre).push(self@[i as int]));
                }
            }
            i += 1;
        }
        proof {
            assert(self@.take(n as int) =~= self@);
            lemma_reject_wf(self@, filter@);
        }
        let count = n - out.len();
        let ghost old_models = self@;
        self.docs = out;
        proof {
            assert(self@ == spec_reject(old_models, filter@));
        }
        Ok(count)
    }
}

} // verus!
