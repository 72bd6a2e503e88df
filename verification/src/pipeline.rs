use vstd::prelude::*;

use crate::store::{
    coll_wf, lemma_first_match, lemma_spec_set, models_of, spec_filter_wf, spec_find, Collection,
    DocModel, Error,
};
use crate::value::{
    lemma_arr_view, lemma_key_idx, lemma_pairs_view, pairs_view, spec_get, spec_set,
    spec_val_cmp, str_eq, Cmp, Document, SpecVal, Value,
};

verus! {

broadcast use {
    vstd::std_specs::vec::group_vec_axioms,
    vstd::seq::group_seq_axioms,
    vstd::seq_lib::group_seq_lib_default,
    crate::value::lemma_pairs_view,
    crate::value::lemma_arr_view,
    crate::value::lemma_key_idx,
    crate::store::lemma_first_match,
    crate::store::lemma_spec_set,
};

/// One sort criterion: a field and a direction, `1` ascending or `-1`
/// descending.
pub struct SortKey {
    pub field: String,
    pub dir: i32,
}

/// A computed field expression; `SizeOf` is the `$size` of an array field.
pub enum Expr {
    SizeOf(String),
}

/// One accumulator of a `Group` stage: the output field it fills, and what
/// it gathers. `CountAll` counts the group's members; `PushField` collects
/// one field's value from each member, in arrival order, skipping members
/// without the field.
pub enum Accumulator {
    CountAll(String),
    PushField(String, String),
}

/// One transformation step of an aggregation pipeline.
pub enum Stage {
    /// Keep the documents the filter matches, in order.
    Match(Document),
    /// Stable sort by the listed keys.
    Sort(Vec<SortKey>),
    /// Keep at most the first N documents; N at most zero keeps none.
    Limit(i64),
    /// For each document, attach as `as_field` the array of every document
    /// of collection `from` whose `foreign_field` equals the local
    /// document's `local_field`.
    Lookup { from: String, local_field: String, foreign_field: String, as_field: String },
    /// Merge each named computed field into a copy of every document.
    AddFields(Vec<(String, Expr)>),
    /// Partition by the value of `by_field` (missing reads as Null) and
    /// emit one document per distinct key, in first-seen order.
    Group { by_field: String, accums: Vec<Accumulator> },
}

/// The model of a database namespace: named collections in creation order.
pub type DbModel = Seq<(Seq<char>, Seq<DocModel>)>;

/// A named mapping from collection names to collections, created on first
/// reference.
pub struct Database {
    pub entries: Vec<(String, Collection)>,
}

impl View for Database {
    type V = DbModel;

    open spec fn view(&self) -> DbModel {
        self.entries@.map(|i: int, e: (String, Collection)| (e.0@, e.1@))
    }
}

/// Index of the first collection with this name, or `db.len()`.
pub open spec fn spec_db_idx(db: DbModel, name: Seq<char>) -> int
    decreases db,
{
    if db.len() == 0 {
        0
    } else if db[0].0 == name {
        0
    } else {
        1 + spec_db_idx(db.drop_first(), name)
    }
}

pub open spec fn spec_db_has(db: DbModel, name: Seq<char>) -> bool {
    spec_db_idx(db, name) < db.len()
}

pub broadcast proof fn lemma_db_idx(db: DbModel, name: Seq<char>)
    ensures
        0 <= #[trigger] spec_db_idx(db, name) <= db.len(),
        spec_db_idx(db, name) < db.len() ==> db[spec_db_idx(db, name)].0 == name,
        forall|j: int| 0 <= j < spec_db_idx(db, name) ==> (#[trigger] db[j]).0 != name,
    decreases db,
{
    if db.len() > 0 && db[0].0 != name {
        lemma_db_idx(db.drop_first(), name);
        assert forall|j: int|
            0 <= j < spec_db_idx(db, name) implies (#[trigger] db[j]).0 != name by {
            if j > 0 {
                assert(db.drop_first()[j - 1] == db[j]);
            }
        }
    }
}

impl Database {
    /// Whether every stored collection is well formed.
    pub open spec fn wf(&self) -> bool {
        forall|i: int| 0 <= i < self@.len() ==> coll_wf((#[trigger] self@[i]).1)
    }

    /// The empty namespace.
    pub fn new() -> (r: Database)
        ensures
            r@ =~= Seq::<(Seq<char>, Seq<DocModel>)>::empty(),
            r.wf(),
    {
        Database { entries: Vec::new() }
    }

    /// Position of the named collection, if it exists.
    pub fn index_of(&self, name: &str) -> (r: Option<usize>)
        ensures
            match r {
                Some(i) => spec_db_has(self@, name@) && i == spec_db_idx(self@, name@)
                    && i < self@.len(),
                None => !spec_db_has(self@, name@),
            },
    {
        proof {
            lemma_db_idx(self@, name@);
        }
        let n = self.entries.len();
        let mut i: usize = 0;
        while i < n
            invariant
                n == self.entries@.len(),
                self@.len() == n,
                0 <= i <= n,
                forall|j: int| 0 <= j < i ==> (#[trigger] self@[j]).0 != name@,
            decreases n - i,
        {
            if str_eq(self.entries[i].0.as_str(), name) {
                proof {
                    lemma_db_idx(self@, name@);
                    let d = spec_db_idx(self@, name@);
                    assert(self@[i as int].0 == name@);
                    if d < i {
                        assert(self@[d].0 != name@);
                        assert(false);
                    }
                    if d > i {
                        assert(self@[i as int].0 != name@);
                        assert(false);
                    }
                }
                return Some(i);
            }
            i += 1;
        }
        proof {
            lemma_db_idx(self@, name@);
        }
        None
    }

    /// Position of the named collection, created empty on first reference.
    pub fn get_or_create(&mut self, name: &str) -> (r: usize)
        requires
            old(self).wf(),
        ensures
            final(self).wf(),
            spec_db_has(old(self)@, name@) ==> final(self)@ == old(self)@ && r == spec_db_idx(
                old(self)@,
                name@,
            ),
            !spec_db_has(old(self)@, name@) ==> final(self)@ == old(self)@.push(
                (name@, Seq::<DocModel>::empty()),
            ) && r == old(self)@.len(),
            r < final(self)@.len(),
            final(self)@[r as int].0 == name@,
    {
        match self.index_of(name) {
            Some(i) => {
                proof {
                    lemma_db_idx(self@, name@);
                }
                i
            },
            None => {
                let i = self.entries.len();
                let ghost old_model = self@;
                self.entries.push((String::from_str(name), Collection::new()));
                proof {
                    assert forall|j: int|
                        0 <= j < self@.len() implies #[trigger] self@[j] == old_model.push(
                        (name@, Seq::<DocModel>::empty()),
                    )[j] by {
                        if j < old_model.len() {
                            assert(self.entries@[j] == old(self).entries@[j]);
                        }
                    }
                    assert(self@ =~= old_model.push((name@, Seq::<DocModel>::empty())));
                }
                i
            },
        }
    }

    /// The collection at a position.
    pub fn coll(&self, i: usize) -> (r: &Collection)
        requires
            i < self@.len(),
        ensures
            r@ == self@[i as int].1,
    {
        &self.entries[i].1
    }

    /// Replace the collection at a position, keeping its name.
    pub fn put_coll(&mut self, i: usize, c: Collection)
        requires
            old(self).wf(),
            i < old(self)@.len(),
            coll_wf(c@),
        ensures
            final(self).wf(),
            final(self)@ =~= old(self)@.update(i as int, (old(self)@[i as int].0, c@)),
    {
        let name = self.entries[i].0.clone();
        let ghost old_model = self@;
        self.entries[i] = (name, c);
        proof {
            assert forall|j: int|
                0 <= j < self@.len() implies #[trigger] self@[j] == old_model.update(
                i as int,
                (old_model[i as int].0, c@),
            )[j] by {
                if j != i {
                    assert(self.entries@[j] == old(self).entries@[j]);
                }
            }
            assert(self@ =~= old_model.update(i as int, (old_model[i as int].0, c@)));
        }
    }
}

/// Flip an ordering outcome for a descending key.
pub open spec fn spec_flip(c: Cmp) -> Cmp {
    match c {
        Cmp::Lt => Cmp::Gt,
        Cmp::Eq => Cmp::Eq,
        Cmp::Gt => Cmp::Lt,
    }
}

/// Order two optional values: a missing field sorts below any present one.
pub open spec fn spec_opt_cmp(a: Option<SpecVal>, b: Option<SpecVal>) -> Cmp {
    match (a, b) {
        (Option::None, Option::None) => Cmp::Eq,
        (Option::None, Option::Some(_)) => Cmp::Lt,
        (Option::Some(_), Option::None) => Cmp::Gt,
        (Option::Some(x), Option::Some(y)) => spec_val_cmp(x, y),
    }
}

/// Order two documents by the sort key list: first key first, later keys
/// break ties, directions applied per key.
pub open spec fn spec_sort_cmp(keys: Seq<SortKey>, a: DocModel, b: DocModel) -> Cmp
    decreases keys.len(),
{
    if keys.len() == 0 {
        Cmp::Eq
    } else {
        let c = spec_opt_cmp(spec_get(a, keys[0].field@), spec_get(b, keys[0].field@));
        let c2 = if keys[0].dir == 1 {
            c
        } else {
            spec_flip(c)
        };
        if c2 != Cmp::Eq {
            c2
        } else {
            spec_sort_cmp(keys.drop_first(), a, b)
        }
    }
}

pub open spec fn spec_sort_lt(keys: Seq<SortKey>, a: DocModel, b: DocModel) -> bool {
    spec_sort_cmp(keys, a, b) == Cmp::Lt
}

/// Insert `x` behind every already-placed document that does not order
/// strictly above it: an arriving document lands after its equals.
pub open spec fn spec_insert_sorted(keys: Seq<SortKey>, x: DocModel, s: Seq<DocModel>) -> Seq<
    DocModel,
>
    decreases s.len(),
{
    if s.len() == 0 {
        seq![x]
    } else if !spec_sort_lt(keys, x, s[0]) {
        seq![s[0]] + spec_insert_sorted(keys, x, s.drop_first())
    } else {
        seq![x] + s
    }
}

/// Stable insertion sort of the documents by the sort key list.
pub open spec fn spec_sort_docs(keys: Seq<SortKey>, s: Seq<DocModel>) -> Seq<DocModel>
    decreases s.len(),
{
    if s.len() == 0 {
        s
    } else {
        spec_insert_sorted(keys, s.last(), spec_sort_docs(keys, s.drop_last()))
    }
}

/// The value a document contributes to `Lookup` matching on one side.
pub open spec fn spec_lookup_matches(
    local: DocModel,
    local_field: Seq<char>,
    foreign_field: Seq<char>,
    aux: DocModel,
) -> bool {
    match (spec_get(local, local_field), spec_get(aux, foreign_field)) {
        (Option::Some(x), Option::Some(y)) => x == y,
        _ => false,
    }
}

/// The array `Lookup` attaches to one document: every auxiliary document
/// whose `foreign_field` equals the local document's `local_field`.
pub open spec fn spec_lookup_arr(
    d: DocModel,
    local_field: Seq<char>,
    foreign_field: Seq<char>,
    aux: Seq<DocModel>,
) -> Seq<SpecVal> {
    aux.filter(|a: DocModel| spec_lookup_matches(d, local_field, foreign_field, a)).map(
        |i: int, a: DocModel| SpecVal::Doc(a),
    )
}

pub proof fn lemma_lookup_arr_step(
    d: DocModel,
    local_field: Seq<char>,
    foreign_field: Seq<char>,
    aux: Seq<DocModel>,
    a: DocModel,
)
    ensures
        spec_lookup_arr(d, local_field, foreign_field, aux.push(a)) == if spec_lookup_matches(
            d,
            local_field,
            foreign_field,
            a,
        ) {
            spec_lookup_arr(d, local_field, foreign_field, aux).push(SpecVal::Doc(a))
        } else {
            spec_lookup_arr(d, local_field, foreign_field, aux)
        },
{
    reveal(Seq::filter);
    assert(aux.push(a).drop_last() =~= aux);
    assert(aux.push(a).last() == a);
    let pred = |x: DocModel| spec_lookup_matches(d, local_field, foreign_field, x);
    if pred(a) {
        assert(aux.push(a).filter(pred) == aux.filter(pred).push(a));
        assert(aux.filter(pred).push(a).map(|i: int, x: DocModel| SpecVal::Doc(x)) =~= aux.filter(
            pred,
        ).map(|i: int, x: DocModel| SpecVal::Doc(x)).push(SpecVal::Doc(a)));
    } else {
        assert(aux.push(a).filter(pred) == aux.filter(pred));
    }
}

/// What `Lookup` turns one document into: the full matching set of the
/// auxiliary collection attached as an array under `as_field`.
pub open spec fn spec_lookup_doc(
    d: DocModel,
    local_field: Seq<char>,
    foreign_field: Seq<char>,
    as_field: Seq<char>,
    aux: Seq<DocModel>,
) -> DocModel {
    spec_set(d, as_field, SpecVal::Array(spec_lookup_arr(d, local_field, foreign_field, aux)))
}

/// What one `$size` expression computes on a document: the element count
/// of an array field, at most the largest machine count, and Null for a
/// missing or non-array field.
pub open spec fn spec_expr_value(d: DocModel, e: Expr) -> SpecVal {
    match e {
        Expr::SizeOf(f) => match spec_get(d, f@) {
            Option::Some(SpecVal::Array(s)) => SpecVal::Int64(
                if s.len() <= i64::MAX {
                    s.len() as int
                } else {
                    i64::MAX as int
                },
            ),
            _ => SpecVal::Null,
        },
    }
}

/// Merge each computed field into the accumulating copy, left to right;
/// every expression reads the original document.
pub open spec fn spec_add_merge(
    orig: DocModel,
    acc: DocModel,
    params: Seq<(String, Expr)>,
) -> DocModel
    decreases params.len(),
{
    if params.len() == 0 {
        acc
    } else {
        spec_add_merge(
            orig,
            spec_set(acc, params[0].0@, spec_expr_value(orig, params[0].1)),
            params.drop_first(),
        )
    }
}

/// What `AddFields` turns one document into.
pub open spec fn spec_add_fields(d: DocModel, params: Seq<(String, Expr)>) -> DocModel {
    spec_add_merge(d, d, params)
}

pub proof fn lemma_add_merge_push(
    orig: DocModel,
    acc: DocModel,
    params: Seq<(String, Expr)>,
    p: (String, Expr),
)
    ensures
        spec_add_merge(orig, acc, params.push(p)) == spec_set(
            spec_add_merge(orig, acc, params),
            p.0@,
            spec_expr_value(orig, p.1),
        ),
    decreases params.len(),
{
    let whole = params.push(p);
    if params.len() == 0 {
        assert(whole[0] == p);
        assert(whole.drop_first() =~= Seq::<(String, Expr)>::empty());
        let acc1 = spec_set(acc, p.0@, spec_expr_value(orig, p.1));
        assert(spec_add_merge(orig, acc, whole) == spec_add_merge(
            orig,
            acc1,
            whole.drop_first(),
        ));
        assert(spec_add_merge(orig, acc1, whole.drop_first()) == acc1);
        assert(spec_add_merge(orig, acc, params) == acc);
    } else {
        assert(whole[0] == params[0]);
        assert(whole.drop_first() =~= params.drop_first().push(p));
        let acc1 = spec_set(acc, params[0].0@, spec_expr_value(orig, params[0].1));
        assert(spec_add_merge(orig, acc, whole) == spec_add_merge(
            orig,
            acc1,
            whole.drop_first(),
        ));
        lemma_add_merge_push(orig, acc1, params.drop_first(), p);
        assert(spec_add_merge(orig, acc, params) == spec_add_merge(
            orig,
            acc1,
            params.drop_first(),
        ));
    }
}

/// The grouping key of a document: the grouped field's value, Null when
/// the field is missing.
pub open spec fn spec_group_key(d: DocModel, by: Seq<char>) -> SpecVal {
    match spec_get(d, by) {
        Option::Some(v) => v,
        Option::None => SpecVal::Null,
    }
}

/// The distinct values of a sequence, each at its first occurrence.
pub open spec fn spec_distinct(s: Seq<SpecVal>) -> Seq<SpecVal>
    decreases s.len(),
{
    if s.len() == 0 {
        Seq::empty()
    } else {
        let d = spec_distinct(s.drop_last());
        if d.contains(s.last()) {
            d
        } else {
            d.push(s.last())
        }
    }
}

/// The members of one group, in arrival order.
pub open spec fn spec_members(s: Seq<DocModel>, by: Seq<char>, k: SpecVal) -> Seq<DocModel> {
    s.filter(|d: DocModel| spec_group_key(d, by) == k)
}

/// The values one `$push` accumulator collects from a group's members.
pub open spec fn spec_push_vals(s: Seq<DocModel>, field: Seq<char>) -> Seq<SpecVal> {
    s.filter(|d: DocModel| spec_get(d, field) is Some).map(
        |i: int, d: DocModel| spec_get(d, field)->Some_0,
    )
}

/// A count clamped to the largest machine count.
pub open spec fn spec_count_val(n: nat) -> SpecVal {
    SpecVal::Int64(
        if n <= i64::MAX {
            n as int
        } else {
            i64::MAX as int
        },
    )
}

/// The fields the accumulators add to one group's output document.
pub open spec fn spec_accum_fields(
    members: Seq<DocModel>,
    accums: Seq<Accumulator>,
) -> Seq<(Seq<char>, SpecVal)>
    decreases accums.len(),
{
    if accums.len() == 0 {
        Seq::empty()
    } else {
        let head = match accums[0] {
            Accumulator::CountAll(name) => (name@, spec_count_val(members.len())),
            Accumulator::PushField(name, field) => (
                name@,
                SpecVal::Array(spec_push_vals(members, field@)),
            ),
        };
        seq![head] + spec_accum_fields(members, accums.drop_first())
    }
}

/// One group's output document: `_id` holds the key, then one field per
/// accumulator.
pub open spec fn spec_group_doc(
    s: Seq<DocModel>,
    by: Seq<char>,
    accums: Seq<Accumulator>,
    k: SpecVal,
) -> DocModel {
    seq![("_id"@, k)] + spec_accum_fields(spec_members(s, by, k), accums)
}

/// What a whole `Group` stage emits: one document per distinct key, in
/// first-seen order.
pub open spec fn spec_group_stage(
    s: Seq<DocModel>,
    by: Seq<char>,
    accums: Seq<Accumulator>,
) -> Seq<DocModel> {
    spec_distinct(s.map(|i: int, d: DocModel| spec_group_key(d, by))).map(
        |i: int, k: SpecVal| spec_group_doc(s, by, accums, k),
    )
}

/// Whether one stage's parameters are well formed: a well-formed filter
/// for `Match`, a non-empty key list with directions `1` or `-1` for
/// `Sort`, and accumulator output fields that are distinct and spare
/// `_id` for `Group`.
pub open spec fn spec_stage_wf(st: Stage) -> bool {
    match st {
        Stage::Match(f) => spec_filter_wf(f@),
        Stage::Sort(keys) => keys@.len() > 0 && forall|i: int|
            0 <= i < keys@.len() ==> (#[trigger] keys@[i]).dir == 1 || keys@[i].dir == -1,
        Stage::Limit(_) => true,
        Stage::Lookup { .. } => true,
        Stage::AddFields(_) => true,
        Stage::Group { by_field, accums } => {
            &&& forall|i: int|
                0 <= i < accums@.len() ==> spec_accum_name(#[trigger] accums@[i]) != "_id"@
            &&& forall|i: int, j: int|
                0 <= i < j < accums@.len() ==> spec_accum_name(#[trigger] accums@[i])
                    != spec_accum_name(#[trigger] accums@[j])
        },
    }
}

/// The output field an accumulator fills.
pub open spec fn spec_accum_name(a: Accumulator) -> Seq<char> {
    match a {
        Accumulator::CountAll(name) => name@,
        Accumulator::PushField(name, _) => name@,
    }
}

pub open spec fn spec_stages_wf(stages: Seq<Stage>) -> bool {
    forall|i: int| 0 <= i < stages.len() ==> spec_stage_wf(#[trigger] stages[i])
}

/// Whether every `Lookup` stage names a collection the namespace has.
pub open spec fn spec_lookups_ok(stages: Seq<Stage>, db: DbModel) -> bool {
    forall|i: int|
        0 <= i < stages.len() ==> match #[trigger] stages[i] {
            Stage::Lookup { from, .. } => spec_db_has(db, from@),
            _ => true,
        }
}

/// What one stage turns its input sequence into.
pub open spec fn spec_eval_stage(st: Stage, db: DbModel, input: Seq<DocModel>) -> Seq<DocModel> {
    match st {
        Stage::Match(f) => spec_find(input, f@),
        Stage::Sort(keys) => spec_sort_docs(keys@, input),
        Stage::Limit(n) => if n <= 0 {
            Seq::empty()
        } else if input.len() <= n {
            input
        } else {
            input.take(n as int)
        },
        Stage::Lookup { from, local_field, foreign_field, as_field } => {
            let aux = db[spec_db_idx(db, from@)].1;
            input.map(
                |i: int, d: DocModel| spec_lookup_doc(
                    d,
                    local_field@,
                    foreign_field@,
                    as_field@,
                    aux,
                ),
            )
        },
        Stage::AddFields(params) => input.map(|i: int, d: DocModel| spec_add_fields(d, params@)),
        Stage::Group { by_field, accums } => spec_group_stage(input, by_field@, accums@),
    }
}

/// A left-to-right fold: each stage's output feeds the next stage.
pub open spec fn spec_eval_pipeline(
    stages: Seq<Stage>,
    db: DbModel,
    input: Seq<DocModel>,
) -> Seq<DocModel>
    decreases stages.len(),
{
    if stages.len() == 0 {
        input
    } else {
        spec_eval_pipeline(stages.drop_first(), db, spec_eval_stage(stages[0], db, input))
    }
}

pub proof fn lemma_eval_pipeline_push(
    stages: Seq<Stage>,
    st: Stage,
    db: DbModel,
    input: Seq<DocModel>,
)
    ensures
        spec_eval_pipeline(stages.push(st), db, input) == spec_eval_stage(
            st,
            db,
            spec_eval_pipeline(stages, db, input),
        ),
    decreases stages.len(),
{
    let whole = stages.push(st);
    if stages.len() == 0 {
        assert(whole[0] == st);
        assert(whole.drop_first() =~= Seq::<Stage>::empty());
        assert(spec_eval_pipeline(whole, db, input) == spec_eval_pipeline(
            whole.drop_first(),
            db,
            spec_eval_stage(st, db, input),
        ));
    } else {
        assert(whole[0] == stages[0]);
        assert(whole.drop_first() =~= stages.drop_first().push(st));
        let mid = spec_eval_stage(stages[0], db, input);
        assert(spec_eval_pipeline(whole, db, input) == spec_eval_pipeline(
            whole.drop_first(),
            db,
            mid,
        ));
        lemma_eval_pipeline_push(stages.drop_first(), st, db, mid);
        assert(spec_eval_pipeline(stages, db, input) == spec_eval_pipeline(
            stages.drop_first(),
            db,
            mid,
        ));
    }
}


/// Ordering on two documents by the sort keys.
pub fn sort_cmp(keys: &Vec<SortKey>, a: &Document, b: &Document) -> (r: Cmp)
    ensures
        r == spec_sort_cmp(keys@, a@, b@),
{
    let n = keys.len();
    proof {
        assert(keys@.skip(0) =~= keys@);
    }
    let mut i: usize = 0;
    loop
        invariant
            n == keys@.len(),
            0 <= i <= n,
            spec_sort_cmp(keys@, a@, b@) == spec_sort_cmp(keys@.skip(i as int), a@, b@),
        decreases n - i,
    {
        let ghost rest = keys@.skip(i as int);
        if i == n {
            return Cmp::Eq;
        }
        proof {
            assert(rest[0] == keys@[i as int]);
        }
        let field = keys[i].field.as_str();
        let c = match (a.get(field), b.get(field)) {
            (Option::None, Option::None) => Cmp::Eq,
            (Option::None, Option::Some(_)) => Cmp::Lt,
            (Option::Some(_), Option::None) => Cmp::Gt,
            (Option::Some(x), Option::Some(y)) => x.val_cmp(y),
        };
        let c2 = if keys[i].dir == 1 {
            c
        } else {
            match c {
                Cmp::Lt => Cmp::Gt,
                Cmp::Eq => Cmp::Eq,
                Cmp::Gt => Cmp::Lt,
            }
        };
        assert(c2 == if rest[0].dir == 1 {
            spec_opt_cmp(spec_get(a@, rest[0].field@), spec_get(b@, rest[0].field@))
        } else {
            spec_flip(spec_opt_cmp(spec_get(a@, rest[0].field@), spec_get(b@, rest[0].field@)))
        });
        if !matches!(c2, Cmp::Eq) {
            return c2;
        }
        proof {
            assert(rest.drop_first() =~= keys@.skip(i + 1));
        }
        i += 1;
    }
}

/// Where a scan stops is where the insertion lands.
pub proof fn lemma_insert_sorted_at(keys: Seq<SortKey>, x: DocModel, s: Seq<DocModel>, p: int)
    requires
        0 <= p <= s.len(),
        forall|j: int| 0 <= j < p ==> !spec_sort_lt(keys, x, #[trigger] s[j]),
        p < s.len() ==> spec_sort_lt(keys, x, s[p]),
    ensures
        spec_insert_sorted(keys, x, s) == s.take(p) + seq![x] + s.skip(p),
    decreases s.len(),
{
    if s.len() == 0 {
        assert(s.take(0) =~= Seq::<DocModel>::empty());
        assert(s.skip(0) =~= Seq::<DocModel>::empty());
        assert(s.take(0) + seq![x] + s.skip(0) =~= seq![x]);
    } else if p == 0 {
        assert(s.take(0) =~= Seq::<DocModel>::empty());
        assert(s.skip(0) =~= s);
        assert(s.take(0) + seq![x] + s.skip(0) =~= seq![x] + s);
    } else {
        assert(!spec_sort_lt(keys, x, s[0]));
        let t = s.drop_first();
        assert forall|j: int| 0 <= j < p - 1 implies !spec_sort_lt(keys, x, #[trigger] t[j]) by {
            assert(t[j] == s[j + 1]);
        }
        if p - 1 < t.len() {
            assert(t[p - 1] == s[p]);
        }
        lemma_insert_sorted_at(keys, x, t, p - 1);
        assert(seq![s[0]] + (t.take(p - 1) + seq![x] + t.skip(p - 1)) =~= s.take(p) + seq![x]
            + s.skip(p));
    }
}

/// Keep the documents the filter matches, in order.
fn eval_match(input: &Vec<Document>, f: &Document) -> (r: Vec<Document>)
    requires
        spec_filter_wf(f@),
    ensures
        models_of(r@) == spec_find(models_of(input@), f@),
{
    let n = input.len();
    let mut out: Vec<Document> = Vec::new();
    proof {
        reveal(Seq::filter);
        assert(models_of(input@).take(0) =~= Seq::<DocModel>::empty());
        assert(models_of(out@) =~= Seq::<DocModel>::empty());
    }
    let mut i: usize = 0;
    while i < n
        invariant
            spec_filter_wf(f@),
            n == input@.len(),
            0 <= i <= n,
            models_of(out@) == spec_find(models_of(input@).take(i as int), f@),
        decreases n - i,
    {
        let ghost pre = models_of(input@).take(i as int);
        proof {
            assert(models_of(input@).take(i + 1) =~= pre.push(input@[i as int]@));
            crate::store::lemma_spec_find_step(pre, f@, input@[i as int]@);
        }
        if input[i].matches_filter(f) {
            let ghost out_pre = out@;
            out.push(input[i].deep_copy());
            proof {
                assert(models_of(out@) =~= models_of(out_pre).push(input@[i as int]@));
            }
        }
        i += 1;
    }
    proof {
        assert(models_of(input@).take(n as int) =~= models_of(input@));
    }
    out
}

/// Keep at most the first `n` documents.
fn eval_limit(input: Vec<Document>, n: i64) -> (r: Vec<Document>)
    ensures
        models_of(r@) == spec_eval_stage(Stage::Limit(n), Seq::empty(), models_of(input@)),
{
    let mut out = input;
    if n <= 0 {
        out.truncate(0);
        proof {
            assert(models_of(out@) =~= Seq::<DocModel>::empty());
        }
        return out;
    }
    let len = out.len();
    if (len as u64) <= (n as u64) {
        return out;
    }
    let keep: usize = n as usize;
    let ghost old_models = models_of(out@);
    out.truncate(keep);
    proof {
        assert forall|j: int|
            0 <= j < out@.len() implies #[trigger] models_of(out@)[j] == old_models.take(
            n as int,
        )[j] by {}
        assert(models_of(out@) =~= old_models.take(n as int));
    }
    out
}

/// Stable insertion sort by the sort keys.
fn eval_sort(input: &Vec<Document>, keys: &Vec<SortKey>) -> (r: Vec<Document>)
    ensures
        models_of(r@) == spec_sort_docs(keys@, models_of(input@)),
{
    let n = input.len();
    let mut out: Vec<Document> = Vec::new();
    proof {
        assert(models_of(input@).take(0) =~= Seq::<DocModel>::empty());
        assert(models_of(out@) =~= Seq::<DocModel>::empty());
    }
    let mut i: usize = 0;
    while i < n
        invariant
            n == input@.len(),
            0 <= i <= n,
            out@.len() == i,
            models_of(out@) == spec_sort_docs(keys@, models_of(input@).take(i as int)),
        decreases n - i,
    {
        let x = input[i].deep_copy();
        let ghost xm = x@;
        let ghost sorted_pre = models_of(out@);
        // find the landing position: past every element not above x
        let m = out.len();
        let mut p: usize = 0;
        loop
            invariant
                m == out@.len(),
                0 <= p <= m,
                xm == x@,
                sorted_pre == models_of(out@),
                forall|j: int|
                    0 <= j < p ==> !spec_sort_lt(keys@, xm, #[trigger] models_of(out@)[j]),
            ensures
                0 <= p <= m,
                m == out@.len(),
                sorted_pre == models_of(out@),
                forall|j: int|
                    0 <= j < p ==> !spec_sort_lt(keys@, xm, #[trigger] models_of(out@)[j]),
                p < m ==> spec_sort_lt(keys@, xm, models_of(out@)[p as int]),
            decreases m - p,
        {
            if p == m {
                break ;
            }
            if matches!(sort_cmp(keys, &x, &out[p]), Cmp::Lt) {
                break ;
            }
            p += 1;
        }
        proof {
            lemma_insert_sorted_at(keys@, xm, sorted_pre, p as int);
        }
        let ghost out_pre = out@;
        out.insert(p, x);
        proof {
            assert forall|j: int|
                0 <= j < out@.len() implies #[trigger] models_of(out@)[j] == (sorted_pre.take(
                p as int,
            ) + seq![xm] + sorted_pre.skip(p as int))[j] by {
                if j < p {
                    assert(out@[j] == out_pre[j]);
                } else if j > p {
                    assert(out@[j] == out_pre[j - 1]);
                }
            }
            assert(models_of(out@) =~= sorted_pre.take(p as int) + seq![xm] + sorted_pre.skip(
                p as int,
            ));
            let pre_in = models_of(input@).take(i as int);
            let cur_in = models_of(input@).take(i + 1);
            assert(cur_in.drop_last() =~= pre_in);
            assert(cur_in.last() == xm);
        }
        i += 1;
    }
    proof {
        assert(models_of(input@).take(n as int) =~= models_of(input@));
    }
    out
}


/// Attach to each document the matching set of the auxiliary collection.
fn eval_lookup(
    input: &Vec<Document>,
    local_field: &String,
    foreign_field: &String,
    as_field: &String,
    aux: &Collection,
) -> (r: Vec<Document>)
    ensures
        models_of(r@).len() == input@.len(),
        forall|j: int|
            0 <= j < input@.len() ==> models_of(r@)[j] == spec_lookup_doc(
                #[trigger] models_of(input@)[j],
                local_field@,
                foreign_field@,
                as_field@,
                aux@,
            ),
{
    let n = input.len();
    let mut out: Vec<Document> = Vec::new();
    let mut i: usize = 0;
    while i < n
        invariant
            n == input@.len(),
            0 <= i <= n,
            out@.len() == i,
            forall|j: int|
                0 <= j < i ==> models_of(out@)[j] == spec_lookup_doc(
                    #[trigger] models_of(input@)[j],
                    local_field@,
                    foreign_field@,
                    as_field@,
                    aux@,
                ),
        decreases n - i,
    {
        let d = &input[i];
        let ghost dm = d@;
        let m = aux.docs.len();
        let mut vals: Vec<Value> = Vec::new();
        proof {
            assert(aux@.take(0) =~= Seq::<DocModel>::empty());
            reveal(Seq::filter);
            assert(crate::value::arr_view(vals@) =~= spec_lookup_arr(
                dm,
                local_field@,
                foreign_field@,
                aux@.take(0),
            ));
        }
        let mut j: usize = 0;
        while j < m
            invariant
                dm == d@,
                m == aux.docs@.len(),
                aux@.len() == m,
                0 <= j <= m,
                crate::value::arr_view(vals@) == spec_lookup_arr(
                    dm,
                    local_field@,
                    foreign_field@,
                    aux@.take(j as int),
                ),
            decreases m - j,
        {
            let ghost pre = aux@.take(j as int);
            proof {
                assert(aux@.take(j + 1) =~= pre.push(aux@[j as int]));
                lemma_lookup_arr_step(dm, local_field@, foreign_field@, pre, aux@[j as int]);
            }
            let a = &aux.docs[j];
            let matched = match (d.get(local_field.as_str()), a.get(foreign_field.as_str())) {
                (Option::Some(x), Option::Some(y)) => x.val_eq(y),
                _ => false,
            };
            assert(matched == spec_lookup_matches(dm, local_field@, foreign_field@, aux@[j as int]));
            if matched {
                let ghost vals_pre = vals@;
                vals.push(Value::Doc(a.deep_copy()));
                proof {
                    crate::value::lemma_arr_view(vals@);
                    crate::value::lemma_arr_view(vals_pre);
                    assert(crate::value::arr_view(vals@) =~= crate::value::arr_view(
                        vals_pre,
                    ).push(SpecVal::Doc(aux@[j as int])));
                }
            }
            j += 1;
        }
        proof {
            assert(aux@.take(m as int) =~= aux@);
        }
        let mut d2 = d.deep_copy();
        d2.set(as_field.as_str(), Value::Array(vals));
        let ghost out_pre = out@;
        out.push(d2);
        proof {
            assert forall|t: int|
                0 <= t < i + 1 implies models_of(out@)[t] == spec_lookup_doc(
                #[trigger] models_of(input@)[t],
                local_field@,
                foreign_field@,
                as_field@,
                aux@,
            ) by {
                if t < i {
                    assert(out@[t] == out_pre[t]);
                }
            }
        }
        i += 1;
    }
    out
}

/// Merge the computed fields into a copy of each document.
fn eval_add_fields(input: &Vec<Document>, params: &Vec<(String, Expr)>) -> (r: Vec<Document>)
    ensures
        models_of(r@).len() == input@.len(),
        forall|j: int|
            0 <= j < input@.len() ==> models_of(r@)[j] == spec_add_fields(
                #[trigger] models_of(input@)[j],
                params@,
            ),
{
    let n = input.len();
    let mut out: Vec<Document> = Vec::new();
    let mut i: usize = 0;
    while i < n
        invariant
            n == input@.len(),
            0 <= i <= n,
            out@.len() == i,
            forall|j: int|
                0 <= j < i ==> models_of(out@)[j] == spec_add_fields(
                    #[trigger] models_of(input@)[j],
                    params@,
                ),
        decreases n - i,
    {
        let d = &input[i];
        let ghost dm = d@;
        let mut d2 = d.deep_copy();
        let m = params.len();
        proof {
            assert(params@.take(0) =~= Seq::<(String, Expr)>::empty());
        }
        let mut j: usize = 0;
        while j < m
            invariant
                dm == d@,
                m == params@.len(),
                0 <= j <= m,
                d2@ == spec_add_merge(dm, dm, params@.take(j as int)),
            decreases m - j,
        {
            let ghost pre = params@.take(j as int);
            proof {
                assert(params@.take(j + 1) =~= pre.push(params@[j as int]));
                lemma_add_merge_push(dm, dm, pre, params@[j as int]);
            }
            let value = match &params[j].1 {
                Expr::SizeOf(field) => match d.get(field.as_str()) {
                    Option::Some(Value::Array(vs)) => {
                        proof {
                            crate::value::lemma_arr_view(vs@);
                        }
                        let len = vs.len();
                        if (len as u64) <= (i64::MAX as u64) {
                            Value::Int64(len as i64)
                        } else {
                            Value::Int64(i64::MAX)
                        }
                    },
                    _ => Value::Null,
                },
            };
            assert(value@ == spec_expr_value(dm, params@[j as int].1));
            d2.set(params[j].0.as_str(), value);
            j += 1;
        }
        proof {
            assert(params@.take(m as int) =~= params@);
        }
        let ghost out_pre = out@;
        out.push(d2);
        proof {
            assert forall|t: int|
                0 <= t < i + 1 implies models_of(out@)[t] == spec_add_fields(
                #[trigger] models_of(input@)[t],
                params@,
            ) by {
                if t < i {
                    assert(out@[t] == out_pre[t]);
                }
            }
        }
        i += 1;
    }
    out
}


pub proof fn lemma_members_step(s: Seq<DocModel>, by: Seq<char>, k: SpecVal, d: DocModel)
    ensures
        spec_members(s.push(d), by, k) == if spec_group_key(d, by) == k {
            spec_members(s, by, k).push(d)
        } else {
            spec_members(s, by, k)
        },
{
    reveal(Seq::filter);
    assert(s.push(d).drop_last() =~= s);
    assert(s.push(d).last() == d);
}

pub proof fn lemma_push_vals_step(s: Seq<DocModel>, field: Seq<char>, d: DocModel)
    ensures
        spec_push_vals(s.push(d), field) == if spec_get(d, field) is Some {
            spec_push_vals(s, field).push(spec_get(d, field)->Some_0)
        } else {
            spec_push_vals(s, field)
        },
{
    reveal(Seq::filter);
    assert(s.push(d).drop_last() =~= s);
    assert(s.push(d).last() == d);
    let pred = |x: DocModel| spec_get(x, field) is Some;
    if pred(d) {
        assert(s.push(d).filter(pred) == s.filter(pred).push(d));
        assert(s.filter(pred).push(d).map(|i: int, x: DocModel| spec_get(x, field)->Some_0)
            =~= s.filter(pred).map(|i: int, x: DocModel| spec_get(x, field)->Some_0).push(
            spec_get(d, field)->Some_0,
        ));
    } else {
        assert(s.push(d).filter(pred) == s.filter(pred));
    }
}

pub proof fn lemma_accum_fields_push(
    members: Seq<DocModel>,
    accums: Seq<Accumulator>,
    a: Accumulator,
)
    ensures
        spec_accum_fields(members, accums.push(a)) == spec_accum_fields(members, accums).push(
            match a {
                Accumulator::CountAll(name) => (name@, spec_count_val(members.len())),
                Accumulator::PushField(name, field) => (
                    name@,
                    SpecVal::Array(spec_push_vals(members, field@)),
                ),
            },
        ),
    decreases accums.len(),
{
    let whole = accums.push(a);
    if accums.len() == 0 {
        assert(whole[0] == a);
        assert(whole.drop_first() =~= Seq::<Accumulator>::empty());
        assert(spec_accum_fields(members, whole.drop_first()) =~= Seq::<(
            Seq<char>,
            SpecVal,
        )>::empty());
        assert(spec_accum_fields(members, accums) =~= Seq::<(Seq<char>, SpecVal)>::empty());
    } else {
        assert(whole[0] == accums[0]);
        assert(whole.drop_first() =~= accums.drop_first().push(a));
        lemma_accum_fields_push(members, accums.drop_first(), a);
    }
}

/// The grouping key of one document: the grouped field's value, Null when
/// the field is missing.
fn group_key_of(d: &Document, by: &String) -> (r: Value)
    ensures
        r@ == spec_group_key(d@, by@),
{
    match d.get(by.as_str()) {
        Option::Some(v) => v.deep_copy(),
        Option::None => Value::Null,
    }
}

/// Whether the model of one of the gathered keys equals `k`.
fn keys_contain(keys: &Vec<Value>, k: &Value) -> (r: bool)
    ensures
        r == crate::value::arr_view(keys@).contains(k@),
{
    proof {
        crate::value::lemma_arr_view(keys@);
    }
    let n = keys.len();
    let mut i: usize = 0;
    while i < n
        invariant
            n == keys@.len(),
            0 <= i <= n,
            forall|j: int| 0 <= j < i ==> crate::value::arr_view(keys@)[j] != k@,
        decreases n - i,
    {
        proof {
            crate::value::lemma_arr_view(keys@);
        }
        if keys[i].val_eq(k) {
            assert(crate::value::arr_view(keys@)[i as int] == k@);
            return true;
        }
        i += 1;
    }
    proof {
        if crate::value::arr_view(keys@).contains(k@) {
            let w = choose|w: int|
                0 <= w < crate::value::arr_view(keys@).len() && crate::value::arr_view(
                    keys@,
                )[w] == k@;
            assert(false);
        }
    }
    false
}

/// Partition by the grouping key and emit one document per distinct key,
/// in first-seen order.
fn eval_group(input: &Vec<Document>, by: &String, accums: &Vec<Accumulator>) -> (r: Vec<
    Document,
>)
    ensures
        models_of(r@) == spec_group_stage(models_of(input@), by@, accums@),
{
    let ghost full = models_of(input@);
    let ghost ks = full.map(|i: int, d: DocModel| spec_group_key(d, by@));
    let n = input.len();

    // first pass: the distinct keys, each at its first occurrence
    let mut keys: Vec<Value> = Vec::new();
    proof {
        assert(ks.take(0) =~= Seq::<SpecVal>::empty());
        assert(crate::value::arr_view(keys@) =~= spec_distinct(ks.take(0)));
    }
    let mut i: usize = 0;
    while i < n
        invariant
            n == input@.len(),
            full == models_of(input@),
            ks == full.map(|t: int, d: DocModel| spec_group_key(d, by@)),
            0 <= i <= n,
            crate::value::arr_view(keys@) == spec_distinct(ks.take(i as int)),
        decreases n - i,
    {
        let k = group_key_of(&input[i], by);
        proof {
            assert(ks.take(i + 1).drop_last() =~= ks.take(i as int));
            assert(ks.take(i + 1).last() == ks[i as int]);
            assert(ks[i as int] == spec_group_key(full[i as int], by@));
            assert(k@ == ks[i as int]);
        }
        if !keys_contain(&keys, &k) {
            let ghost keys_pre = keys@;
            keys.push(k);
            proof {
                crate::value::lemma_arr_view(keys@);
                crate::value::lemma_arr_view(keys_pre);
                assert(crate::value::arr_view(keys@) =~= crate::value::arr_view(keys_pre).push(
                    ks[i as int],
                ));
            }
        }
        i += 1;
    }
    proof {
        assert(ks.take(n as int) =~= ks);
    }
    let ghost distinct = spec_distinct(ks);
    assert(crate::value::arr_view(keys@) == distinct);

    // second pass: one output document per distinct key
    let gn = keys.len();
    let mut out: Vec<Document> = Vec::new();
    proof {
        crate::value::lemma_arr_view(keys@);
    }
    let mut g: usize = 0;
    while g < gn
        invariant
            n == input@.len(),
            full == models_of(input@),
            gn == keys@.len(),
            distinct == crate::value::arr_view(keys@),
            distinct.len() == gn,
            0 <= g <= gn,
            out@.len() == g,
            forall|t: int|
                0 <= t < g ==> models_of(out@)[t] == spec_group_doc(
                    full,
                    by@,
                    accums@,
                    #[trigger] distinct[t],
                ),
        decreases gn - g,
    {
        proof {
            crate::value::lemma_arr_view(keys@);
        }
        let ghost km = distinct[g as int];
        assert(keys@[g as int]@ == km);
        let ghost mems = spec_members(full, by@, km);
        let mut fields: Vec<(String, Value)> = Vec::new();
        let id_val = keys[g].deep_copy();
        fields.push((String::from_str("_id"), id_val));
        proof {
            crate::value::lemma_pairs_view(fields@);
            assert(accums@.take(0) =~= Seq::<Accumulator>::empty());
            assert(pairs_view(fields@) =~= seq![("_id"@, km)] + spec_accum_fields(
                mems,
                accums@.take(0),
            ));
        }
        let an = accums.len();
        let mut t: usize = 0;
        while t < an
            invariant
                n == input@.len(),
                full == models_of(input@),
                gn == keys@.len(),
                distinct == crate::value::arr_view(keys@),
                0 <= g < gn,
                km == distinct[g as int],
                keys@[g as int]@ == km,
                mems == spec_members(full, by@, km),
                an == accums@.len(),
                0 <= t <= an,
                pairs_view(fields@) == seq![("_id"@, km)] + spec_accum_fields(
                    mems,
                    accums@.take(t as int),
                ),
            decreases an - t,
        {
            proof {
                assert(accums@.take(t + 1) =~= accums@.take(t as int).push(accums@[t as int]));
                lemma_accum_fields_push(mems, accums@.take(t as int), accums@[t as int]);
            }
            let pair: (String, Value) = match &accums[t] {
                Accumulator::CountAll(name) => {
                    let mut cnt: usize = 0;
                    proof {
                        assert(full.take(0) =~= Seq::<DocModel>::empty());
                        reveal(Seq::filter);
                    }
                    let mut i2: usize = 0;
                    while i2 < n
                        invariant
                            n == input@.len(),
                            full == models_of(input@),
                            km == distinct[g as int],
                            gn == keys@.len(),
                            0 <= g < gn,
                            distinct == crate::value::arr_view(keys@),
                            distinct.len() == gn,
                            keys@[g as int]@ == km,
                            0 <= i2 <= n,
                            cnt <= i2,
                            cnt == spec_members(full.take(i2 as int), by@, km).len(),
                        decreases n - i2,
                    {
                        let ghost pre = full.take(i2 as int);
                        proof {
                            assert(full.take(i2 + 1) =~= pre.push(full[i2 as int]));
                            lemma_members_step(pre, by@, km, full[i2 as int]);
                        }
                        let k2 = group_key_of(&input[i2], by);
                        let ghost gidx = g as int;
                        if k2.val_eq(&keys[g]) {
                            cnt += 1;
                        }
                        i2 += 1;
                    }
                    proof {
                        assert(full.take(n as int) =~= full);
                    }
                    let cv = if (cnt as u64) <= (i64::MAX as u64) {
                        Value::Int64(cnt as i64)
                    } else {
                        Value::Int64(i64::MAX)
                    };
                    assert(cv@ == spec_count_val(mems.len()));
                    (String::from_str(name.as_str()), cv)
                },
                Accumulator::PushField(name, field) => {
                    let mut vals: Vec<Value> = Vec::new();
                    proof {
                        assert(full.take(0) =~= Seq::<DocModel>::empty());
                        reveal(Seq::filter);
                        assert(spec_members(full.take(0), by@, km) =~= Seq::<DocModel>::empty());
                        assert(crate::value::arr_view(vals@) =~= spec_push_vals(
                            spec_members(full.take(0), by@, km),
                            field@,
                        ));
                    }
                    let mut i2: usize = 0;
                    while i2 < n
                        invariant
                            n == input@.len(),
                            full == models_of(input@),
                            km == distinct[g as int],
                            gn == keys@.len(),
                            0 <= g < gn,
                            distinct == crate::value::arr_view(keys@),
                            distinct.len() == gn,
                            keys@[g as int]@ == km,
                            0 <= i2 <= n,
                            crate::value::arr_view(vals@) == spec_push_vals(
                                spec_members(full.take(i2 as int), by@, km),
                                field@,
                            ),
                        decreases n - i2,
                    {
                        let ghost pre = full.take(i2 as int);
                        let ghost mpre = spec_members(pre, by@, km);
                        proof {
                            assert(full.take(i2 + 1) =~= pre.push(full[i2 as int]));
                            lemma_members_step(pre, by@, km, full[i2 as int]);
                            if spec_group_key(full[i2 as int], by@) == km {
                                lemma_push_vals_step(mpre, field@, full[i2 as int]);
                            }
                        }
                        let k2 = group_key_of(&input[i2], by);
                        if k2.val_eq(&keys[g]) {
                            match input[i2].get(field.as_str()) {
                                Option::Some(v) => {
                                    let ghost vals_pre = vals@;
                                    vals.push(v.deep_copy());
                                    proof {
                                        crate::value::lemma_arr_view(vals@);
                                        crate::value::lemma_arr_view(vals_pre);
                                        assert(crate::value::arr_view(vals@)
                                            =~= crate::value::arr_view(vals_pre).push(
                                            spec_get(full[i2 as int], field@)->Some_0,
                                        ));
                                    }
                                },
                                Option::None => {},
                            }
                        }
                        i2 += 1;
                    }
                    proof {
                        assert(full.take(n as int) =~= full);
                    }
                    let av = Value::Array(vals);
                    assert(av@ == SpecVal::Array(spec_push_vals(mems, field@)));
                    (String::from_str(name.as_str()), av)
                },
            };
            let ghost fields_pre = fields@;
            fields.push(pair);
            proof {
                crate::value::lemma_pairs_view(fields@);
                crate::value::lemma_pairs_view(fields_pre);
                assert(pairs_view(fields@) =~= pairs_view(fields_pre).push(
                    (pair.0@, pair.1@),
                ));
            }
            t += 1;
        }
        proof {
            assert(accums@.take(an as int) =~= accums@);
        }
        let ghost out_pre = out@;
        out.push(Document { fields });
        proof {
            assert forall|t2: int|
                0 <= t2 < g + 1 implies models_of(out@)[t2] == spec_group_doc(
                full,
                by@,
                accums@,
                #[trigger] distinct[t2],
            ) by {
                if t2 < g {
                    assert(out@[t2] == out_pre[t2]);
                }
            }
        }
        g += 1;
    }
    proof {
        assert forall|t2: int|
            0 <= t2 < distinct.len() implies models_of(out@)[t2] == spec_group_stage(
            full,
            by@,
            accums@,
        )[t2] by {}
        assert(models_of(out@) =~= spec_group_stage(full, by@, accums@));
    }
    out
}


impl Stage {
    /// Whether this stage's parameters are well formed.
    pub fn wf(&self) -> (r: bool)
        ensures
            r == spec_stage_wf(*self),
    {
        match self {
            Stage::Match(f) => f.filter_wf(),
            Stage::Sort(keys) => {
                let n = keys.len();
                if n == 0 {
                    return false;
                }
                let mut i: usize = 0;
                while i < n
                    invariant
                        *self == Stage::Sort(*keys),
                        n == keys@.len(),
                        n > 0,
                        0 <= i <= n,
                        forall|j: int|
                            0 <= j < i ==> (#[trigger] keys@[j]).dir == 1 || keys@[j].dir == -1,
                    decreases n - i,
                {
                    let d = keys[i].dir;
                    if d != 1 && d != -1 {
                        assert(!(keys@[i as int].dir == 1 || keys@[i as int].dir == -1));
                        return false;
                    }
                    i += 1;
                }
                true
            },
            Stage::Limit(_) => true,
            Stage::Lookup { .. } => true,
            Stage::AddFields(_) => true,
            Stage::Group { by_field: _, accums } => {
                let n = accums.len();
                let mut i: usize = 0;
                while i < n
                    invariant
                        *self matches Stage::Group { by_field: _, accums: a2 } && a2 == *accums,
                        n == accums@.len(),
                        0 <= i <= n,
                        forall|j: int|
                            0 <= j < i ==> spec_accum_name(#[trigger] accums@[j]) != "_id"@,
                        forall|x: int, y: int|
                            0 <= x < y < n && x < i ==> spec_accum_name(#[trigger] accums@[x])
                                != spec_accum_name(#[trigger] accums@[y]),
                    decreases n - i,
                {
                    let name_i = match &accums[i] {
                        Accumulator::CountAll(name) => name,
                        Accumulator::PushField(name, _) => name,
                    };
                    assert(name_i@ == spec_accum_name(accums@[i as int]));
                    if str_eq(name_i.as_str(), "_id") {
                        return false;
                    }
                    let mut j: usize = i + 1;
                    while j < n
                        invariant
                            *self matches Stage::Group { by_field: _, accums: a2 } && a2
                                == *accums,
                            n == accums@.len(),
                            0 <= i < j <= n,
                            name_i@ == spec_accum_name(accums@[i as int]),
                            forall|y: int|
                                i < y < j ==> spec_accum_name(#[trigger] accums@[y]) != name_i@,
                        decreases n - j,
                    {
                        let name_j = match &accums[j] {
                            Accumulator::CountAll(name) => name,
                            Accumulator::PushField(name, _) => name,
                        };
                        assert(name_j@ == spec_accum_name(accums@[j as int]));
                        if str_eq(name_i.as_str(), name_j.as_str()) {
                            assert(spec_accum_name(accums@[i as int]) == spec_accum_name(
                                accums@[j as int],
                            ));
                            return false;
                        }
                        j += 1;
                    }
                    i += 1;
                }
                true
            },
        }
    }
}

/// Run an ordered list of stages over a collection: a left-to-right fold
/// where each stage's output feeds the next, starting from every stored
/// document in storage order. A malformed stage is refused before any
/// evaluation; a `Lookup` naming an unknown collection of the namespace is
/// refused with the missing name.
pub fn aggregate(coll: &Collection, stages: &Vec<Stage>, db: &Database) -> (r: Result<
    Vec<Document>,
    Error,
>)
    ensures
        !spec_stages_wf(stages@) ==> r is Err && r->Err_0 is InvalidPipeline,
        spec_stages_wf(stages@) && !spec_lookups_ok(stages@, db@) ==> r is Err
            && r->Err_0 is ReferenceError,
        spec_stages_wf(stages@) && spec_lookups_ok(stages@, db@) ==> r is Ok && models_of(
            r->Ok_0@,
        ) == spec_eval_pipeline(stages@, db@, coll@),
{
    let sn = stages.len();
    let mut si: usize = 0;
    while si < sn
        invariant
            sn == stages@.len(),
            0 <= si <= sn,
            forall|j: int| 0 <= j < si ==> spec_stage_wf(#[trigger] stages@[j]),
        decreases sn - si,
    {
        if !stages[si].wf() {
            assert(!spec_stage_wf(stages@[si as int]));
            return Err(Error::InvalidPipeline);
        }
        si += 1;
    }
    assert(spec_stages_wf(stages@));
    let mut si: usize = 0;
    while si < sn
        invariant
            sn == stages@.len(),
            spec_stages_wf(stages@),
            0 <= si <= sn,
            forall|j: int|
                0 <= j < si ==> match #[trigger] stages@[j] {
                    Stage::Lookup { from, .. } => spec_db_has(db@, from@),
                    _ => true,
                },
        decreases sn - si,
    {
        match &stages[si] {
            Stage::Lookup { from, .. } => {
                match db.index_of(from.as_str()) {
                    Some(_) => {},
                    None => {
                        assert(stages@[si as int] matches Stage::Lookup { from: f2, .. }
                            && !spec_db_has(db@, f2@));
                        assert(!spec_lookups_ok(stages@, db@));
                        return Err(Error::ReferenceError(String::from_str(from.as_str())));
                    },
                }
            },
            _ => {},
        }
        si += 1;
    }
    assert(spec_lookups_ok(stages@, db@));

    // the initial input: every stored document, in storage order
    let n = coll.docs.len();
    let mut cur: Vec<Document> = Vec::new();
    let mut i: usize = 0;
    while i < n
        invariant
            n == coll.docs@.len(),
            coll@.len() == n,
            0 <= i <= n,
            cur@.len() == i,
            forall|j: int| 0 <= j < i ==> models_of(cur@)[j] == #[trigger] coll@[j],
        decreases n - i,
    {
        let ghost cur_pre = cur@;
        cur.push(coll.docs[i].deep_copy());
        proof {
            assert forall|j: int|
                0 <= j < i + 1 implies models_of(cur@)[j] == #[trigger] coll@[j] by {
                if j < i {
                    assert(cur@[j] == cur_pre[j]);
                }
            }
        }
        i += 1;
    }
    proof {
        assert(models_of(cur@) =~= coll@);
        assert(stages@.take(0) =~= Seq::<Stage>::empty());
    }

    // the fold itself
    let mut si: usize = 0;
    while si < sn
        invariant
            sn == stages@.len(),
            0 <= si <= sn,
            spec_stages_wf(stages@),
            spec_lookups_ok(stages@, db@),
            models_of(cur@) == spec_eval_pipeline(stages@.take(si as int), db@, coll@),
        decreases sn - si,
    {
        let ghost done = stages@.take(si as int);
        let ghost st = stages@[si as int];
        proof {
            assert(stages@.take(si + 1) =~= done.push(st));
            lemma_eval_pipeline_push(done, st, db@, coll@);
            assert(spec_stage_wf(st));
        }
        let ghost mid = models_of(cur@);
        match &stages[si] {
            Stage::Match(f) => {
                cur = eval_match(&cur, f);
            },
            Stage::Sort(keys) => {
                cur = eval_sort(&cur, keys);
            },
            Stage::Limit(count) => {
                cur = eval_limit(cur, *count);
            },
            Stage::Lookup { from, local_field, foreign_field, as_field } => {
                assert(spec_db_has(db@, from@));
                let idx = match db.index_of(from.as_str()) {
                    Some(idx) => idx,
                    None => {
                        proof {
                            assert(false);
                        }
                        return Err(Error::InvalidPipeline);
                    },
                };
                let aux = db.coll(idx);
                cur = eval_lookup(&cur, local_field, foreign_field, as_field, aux);
                proof {
                    assert(models_of(cur@) =~= spec_eval_stage(st, db@, mid));
                }
            },
            Stage::AddFields(params) => {
                cur = eval_add_fields(&cur, params);
                proof {
                    assert(models_of(cur@) =~= spec_eval_stage(st, db@, mid));
                }
            },
            Stage::Group { by_field, accums } => {
                cur = eval_group(&cur, by_field, accums);
            },
        }
        assert(models_of(cur@) == spec_eval_stage(st, db@, mid));
        si += 1;
    }
    proof {
        assert(stages@.take(sn as int) =~= stages@);
    }
    Ok(cur)
}

} // verus!
