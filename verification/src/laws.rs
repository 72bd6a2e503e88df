use vstd::prelude::*;

use crate::pipeline::{
    lemma_members_step, spec_distinct, spec_group_key, spec_lookup_arr, spec_lookup_doc,
    spec_lookup_matches, spec_members, spec_insert_sorted, spec_opt_cmp, spec_sort_cmp,
    spec_sort_docs, spec_sort_lt, SortKey,
};
use crate::store::{
    coll_has_id, lemma_first_match, lemma_spec_set, spec_cond_matches, spec_doc_matches,
    spec_filter_lookup, spec_filter_wf, spec_first_match, spec_is_op_doc, DocModel,
};
use crate::value::{
    lemma_split_dots_whole, lemma_val_cmp_total, spec_cmp_laws, spec_get, spec_split_dots, Cmp,
    SpecVal,
};

verus! {

broadcast use {
    vstd::seq::group_seq_axioms,
    vstd::seq_lib::group_seq_lib_default,
    crate::value::lemma_key_idx,
    crate::store::lemma_first_match,
    crate::store::lemma_spec_set,
};

/// A freshly inserted document is found again by its returned `_id`: with
/// no earlier holder of that `_id`, the filter `{"_id": id}` first matches
/// exactly the stored copy of the inserted document.
pub proof fn law_insert_then_find(s: Seq<DocModel>, doc: DocModel, id: SpecVal)
    requires
        spec_get(doc, "_id"@) == Some(id),
        !coll_has_id(s, id),
        !spec_is_op_doc(id),
    ensures
        ({
            let f = seq![("_id"@, id)];
            let s2 = s.push(doc);
            &&& spec_filter_wf(f)
            &&& spec_first_match(s2, f) == s.len()
            &&& s2[spec_first_match(s2, f)] == doc
        }),
{
    let f = seq![("_id"@, id)];
    let s2 = s.push(doc);
    assert(spec_filter_wf(f)) by {
        assert(f[0].1 == id);
    }
    assert(f[0] == ("_id"@, id));
    // the key "_id" holds no dot, so it addresses the top-level field
    reveal_strlit("_id");
    assert forall|j: int| 0 <= j < "_id"@.len() implies "_id"@[j] != '.' by {}
    lemma_split_dots_whole("_id"@);
    assert(spec_split_dots("_id"@) == seq!["_id"@]);
    assert(spec_filter_lookup(doc, "_id"@) == spec_get(doc, "_id"@));
    assert(spec_cond_matches(doc, "_id"@, id));
    assert(spec_doc_matches(f, doc));
    assert forall|j: int| 0 <= j < s.len() implies !spec_doc_matches(f, #[trigger] s2[j]) by {
        assert(s2[j] == s[j]);
        if spec_doc_matches(f, s[j]) {
            assert(spec_cond_matches(s[j], f[0].0, f[0].1));
            assert(spec_filter_lookup(s[j], "_id"@) == spec_get(s[j], "_id"@));
            assert(spec_get(s[j], "_id"@) == Some(id));
            assert(coll_has_id(s, id));
        }
    }
    lemma_first_match(s2, f);
    let fm = spec_first_match(s2, f);
    if fm < s.len() {
        assert(!spec_doc_matches(f, s2[fm]));
        assert(false);
    }
    assert(spec_doc_matches(f, s2[s.len() as int]));
    if fm > s.len() {
        assert(!spec_doc_matches(f, s2[s.len() as int]));
        assert(false);
    }
}

/// The array a `Lookup` attaches is complete and sound: the output
/// document always carries the array (an unmatched document gets an empty
/// one, never omission), every attached element is an auxiliary document
/// whose foreign field equals the local field, and every such auxiliary
/// document is attached.
pub proof fn law_lookup_complete(
    d: DocModel,
    local_field: Seq<char>,
    foreign_field: Seq<char>,
    as_field: Seq<char>,
    aux: Seq<DocModel>,
)
    ensures
        ({
            let arr = spec_lookup_arr(d, local_field, foreign_field, aux);
            let out = spec_lookup_doc(d, local_field, foreign_field, as_field, aux);
            &&& spec_get(out, as_field) == Some(SpecVal::Array(arr))
            &&& forall|j: int|
                0 <= j < arr.len() ==> (#[trigger] arr[j]) is Doc && aux.contains(arr[j]->Doc_0)
                    && spec_lookup_matches(d, local_field, foreign_field, arr[j]->Doc_0)
            &&& forall|i: int|
                0 <= i < aux.len() && spec_lookup_matches(
                    d,
                    local_field,
                    foreign_field,
                    #[trigger] aux[i],
                ) ==> arr.contains(SpecVal::Doc(aux[i]))
            &&& (forall|i: int|
                0 <= i < aux.len() ==> !spec_lookup_matches(
                    d,
                    local_field,
                    foreign_field,
                    #[trigger] aux[i],
                )) ==> arr == Seq::<SpecVal>::empty()
        }),
{
    broadcast use vstd::seq_lib::group_filter_ensures;

    let pred = |a: DocModel| spec_lookup_matches(d, local_field, foreign_field, a);
    let kept = aux.filter(pred);
    let arr = spec_lookup_arr(d, local_field, foreign_field, aux);
    lemma_spec_set(d, as_field, SpecVal::Array(arr));
    lemma_filter_all(aux, pred);
    assert forall|j: int|
        0 <= j < arr.len() implies (#[trigger] arr[j]) is Doc && aux.contains(arr[j]->Doc_0)
            && spec_lookup_matches(d, local_field, foreign_field, arr[j]->Doc_0) by {
        assert(arr[j] == SpecVal::Doc(kept[j]));
        assert(pred(kept[j]));
        assert(aux.contains(kept[j]));
    }
    assert forall|i: int|
        0 <= i < aux.len() && spec_lookup_matches(
            d,
            local_field,
            foreign_field,
            #[trigger] aux[i],
        ) implies arr.contains(SpecVal::Doc(aux[i])) by {
        assert(kept.contains(aux[i]));
        let w = choose|w: int| 0 <= w < kept.len() && kept[w] == aux[i];
        assert(arr[w] == SpecVal::Doc(aux[i]));
    }
    if forall|i: int|
        0 <= i < aux.len() ==> !spec_lookup_matches(
            d,
            local_field,
            foreign_field,
            #[trigger] aux[i],
        ) {
        if kept.len() > 0 {
            assert(aux.contains(kept[0]));
            let w = choose|w: int| 0 <= w < aux.len() && aux[w] == kept[0];
            assert(pred(kept[0]));
            assert(false);
        }
        assert(arr =~= Seq::<SpecVal>::empty());
    }
}

/// Every element a filter keeps comes from the source, and every source
/// element that satisfies the predicate is kept.
pub proof fn lemma_filter_all<A>(s: Seq<A>, pred: spec_fn(A) -> bool)
    ensures
        forall|j: int|
            0 <= j < s.filter(pred).len() ==> pred(#[trigger] s.filter(pred)[j]) && s.contains(
                s.filter(pred)[j],
            ),
        forall|i: int| 0 <= i < s.len() && pred(#[trigger] s[i]) ==> s.filter(pred).contains(s[i]),
    decreases s.len(),
{
    broadcast use vstd::seq_lib::group_filter_ensures;

    reveal(Seq::filter);
    if s.len() > 0 {
        let t = s.drop_last();
        lemma_filter_all(t, pred);
        assert(t.push(s.last()) =~= s);
        assert forall|j: int|
            0 <= j < s.filter(pred).len() implies pred(#[trigger] s.filter(pred)[j])
                && s.contains(s.filter(pred)[j]) by {
            if j < t.filter(pred).len() {
                assert(s.filter(pred)[j] == t.filter(pred)[j]);
                assert(t.contains(t.filter(pred)[j]));
                let w = choose|w: int| 0 <= w < t.len() && t[w] == t.filter(pred)[j];
                assert(s[w] == t[w]);
            } else {
                assert(s.filter(pred)[j] == s.last());
                assert(s[s.len() - 1] == s.last());
            }
        }
        assert forall|i: int|
            0 <= i < s.len() && pred(#[trigger] s[i]) implies s.filter(pred).contains(s[i]) by {
            if i < s.len() - 1 {
                assert(t[i] == s[i]);
                assert(t.filter(pred).contains(s[i]));
                let w = choose|w: int|
                    0 <= w < t.filter(pred).len() && t.filter(pred)[w] == s[i];
                assert(s.filter(pred)[w] == s[i]);
            } else {
                assert(s.filter(pred)[s.filter(pred).len() - 1] == s.last());
            }
        }
    }
}

/// The distinct first-seen keys hold each key of the source exactly once.
pub proof fn lemma_distinct_props(s: Seq<SpecVal>)
    ensures
        forall|g1: int, g2: int|
            0 <= g1 < g2 < spec_distinct(s).len() ==> spec_distinct(s)[g1] != spec_distinct(
                s,
            )[g2],
        forall|x: SpecVal| spec_distinct(s).contains(x) <==> s.contains(x),
    decreases s.len(),
{
    if s.len() > 0 {
        let t = s.drop_last();
        lemma_distinct_props(t);
        let dt = spec_distinct(t);
        let ds = spec_distinct(s);
        assert forall|x: SpecVal| ds.contains(x) implies s.contains(x) by {
            if dt.contains(x) {
                assert(t.contains(x));
                let w = choose|w: int| 0 <= w < t.len() && t[w] == x;
                assert(s[w] == x);
            } else {
                assert(x == s.last());
                assert(s[s.len() - 1] == x);
            }
        }
        assert forall|x: SpecVal| s.contains(x) implies ds.contains(x) by {
            let w = choose|w: int| 0 <= w < s.len() && s[w] == x;
            if w < s.len() - 1 {
                assert(t[w] == x);
                assert(t.contains(x));
                assert(dt.contains(x));
                let w2 = choose|w2: int| 0 <= w2 < dt.len() && dt[w2] == x;
                if !dt.contains(s.last()) {
                    assert(ds[w2] == x);
                } else {
                    assert(ds == dt);
                }
            } else {
                assert(x == s.last());
                if dt.contains(x) {
                    let w2 = choose|w2: int| 0 <= w2 < dt.len() && dt[w2] == x;
                    assert(ds[w2] == x);
                } else {
                    assert(ds[ds.len() - 1] == x);
                }
            }
        }
        if !dt.contains(s.last()) {
            assert forall|g1: int, g2: int|
                0 <= g1 < g2 < ds.len() implies ds[g1] != ds[g2] by {
                if g2 == ds.len() - 1 {
                    assert(ds[g1] == dt[g1]);
                    assert(dt.contains(dt[g1]));
                    assert(ds[g2] == s.last());
                } else {
                    assert(ds[g1] == dt[g1]);
                    assert(ds[g2] == dt[g2]);
                }
            }
        }
    }
}

/// Grouping covers the input: each input document's key heads exactly one
/// group, and that group's member list is precisely the input documents
/// carrying the key, in arrival order. No document is dropped, none is
/// counted in two groups.
pub proof fn law_group_coverage(s: Seq<DocModel>, by: Seq<char>)
    ensures
        ({
            let ks = s.map(|i: int, d: DocModel| spec_group_key(d, by));
            let groups = spec_distinct(ks);
            &&& forall|g1: int, g2: int|
                0 <= g1 < g2 < groups.len() ==> groups[g1] != groups[g2]
            &&& forall|j: int|
                0 <= j < s.len() ==> groups.contains(spec_group_key(#[trigger] s[j], by))
            &&& forall|g: int, j: int|
                #![trigger groups[g], s[j]]
                0 <= g < groups.len() && 0 <= j < s.len() && spec_group_key(s[j], by)
                    == groups[g] ==> spec_members(s, by, groups[g]).contains(s[j])
        }),
{
    let ks = s.map(|i: int, d: DocModel| spec_group_key(d, by));
    let groups = spec_distinct(ks);
    lemma_distinct_props(ks);
    assert forall|j: int|
        0 <= j < s.len() implies groups.contains(spec_group_key(#[trigger] s[j], by)) by {
        assert(ks[j] == spec_group_key(s[j], by));
        assert(ks.contains(ks[j]));
    }
    assert forall|g: int, j: int|
        #![trigger groups[g], s[j]]
        0 <= g < groups.len() && 0 <= j < s.len() && spec_group_key(s[j], by)
            == groups[g] implies spec_members(s, by, groups[g]).contains(s[j]) by {
        lemma_filter_all(s, |d: DocModel| spec_group_key(d, by) == groups[g]);
    }
}


/// The tie predicate of a sort: comparing equal to the witness document
/// under the sort keys.
pub open spec fn spec_ties_pred(keys: Seq<SortKey>, w: DocModel) -> spec_fn(DocModel) -> bool {
    |d: DocModel| spec_sort_cmp(keys, d, w) == Cmp::Eq
}

/// The subsequence of documents that tie with the witness.
pub open spec fn spec_ties(keys: Seq<SortKey>, s: Seq<DocModel>, w: DocModel) -> Seq<DocModel> {
    s.filter(spec_ties_pred(keys, w))
}

/// Whether a document sequence is ordered below-or-equal throughout.
pub open spec fn spec_sorted_le(keys: Seq<SortKey>, t: Seq<DocModel>) -> bool {
    forall|i: int, j: int|
        0 <= i < j < t.len() ==> spec_sort_cmp(keys, #[trigger] t[i], #[trigger] t[j]) != Cmp::Gt
}

pub proof fn lemma_opt_cmp_total(a: Option<SpecVal>, b: Option<SpecVal>, c: Option<SpecVal>)
    ensures
        spec_cmp_laws(
            spec_opt_cmp(a, b),
            spec_opt_cmp(b, a),
            spec_opt_cmp(b, c),
            spec_opt_cmp(a, c),
        ),
{
    match (a, b, c) {
        (Option::Some(x), Option::Some(y), Option::Some(z)) => {
            lemma_val_cmp_total(x, y, z);
        },
        (Option::Some(x), Option::Some(y), Option::None) => {
            lemma_val_cmp_total(x, y, y);
        },
        _ => {},
    }
}

/// The sort order over whole documents is a total order too.
#[verifier::rlimit(100)]
pub proof fn lemma_sort_cmp_total(keys: Seq<SortKey>, a: DocModel, b: DocModel, c: DocModel)
    ensures
        spec_cmp_laws(
            spec_sort_cmp(keys, a, b),
            spec_sort_cmp(keys, b, a),
            spec_sort_cmp(keys, b, c),
            spec_sort_cmp(keys, a, c),
        ),
    decreases keys.len(),
{
    if keys.len() > 0 {
        let f = keys[0].field@;
        let hab = spec_opt_cmp(spec_get(a, f), spec_get(b, f));
        let hba = spec_opt_cmp(spec_get(b, f), spec_get(a, f));
        let hbc = spec_opt_cmp(spec_get(b, f), spec_get(c, f));
        let hcb = spec_opt_cmp(spec_get(c, f), spec_get(b, f));
        let hac = spec_opt_cmp(spec_get(a, f), spec_get(c, f));
        let hca = spec_opt_cmp(spec_get(c, f), spec_get(a, f));
        lemma_opt_cmp_total(spec_get(a, f), spec_get(b, f), spec_get(c, f));
        lemma_opt_cmp_total(spec_get(c, f), spec_get(b, f), spec_get(a, f));
        lemma_opt_cmp_total(spec_get(b, f), spec_get(a, f), spec_get(c, f));
        lemma_opt_cmp_total(spec_get(c, f), spec_get(a, f), spec_get(b, f));
        lemma_sort_cmp_total(keys.drop_first(), a, b, c);
        assert(spec_cmp_laws(hab, hba, hbc, hac));
        assert(spec_cmp_laws(hcb, hbc, hba, hca));
    }
}

/// Inserting into a sorted run keeps it sorted; what comes out is the new
/// document or one already there.
#[verifier::rlimit(100)]
pub proof fn lemma_insert_sorted_le(keys: Seq<SortKey>, x: DocModel, t: Seq<DocModel>)
    requires
        spec_sorted_le(keys, t),
    ensures
        spec_sorted_le(keys, spec_insert_sorted(keys, x, t)),
        spec_insert_sorted(keys, x, t).len() == t.len() + 1,
        forall|e: DocModel|
            #[trigger] spec_insert_sorted(keys, x, t).contains(e) ==> e == x || t.contains(e),
    decreases t.len(),
{
    let out = spec_insert_sorted(keys, x, t);
    if t.len() == 0 {
        assert(out =~= seq![x]);
        assert forall|e: DocModel| #[trigger] out.contains(e) implies e == x || t.contains(e) by {
            let q = choose|q: int| 0 <= q < out.len() && out[q] == e;
        }
    } else if !spec_sort_lt(keys, x, t[0]) {
        let rest = t.drop_first();
        assert forall|i: int, j: int|
            0 <= i < j < rest.len() implies spec_sort_cmp(
            keys,
            #[trigger] rest[i],
            #[trigger] rest[j],
        ) != Cmp::Gt by {
            assert(rest[i] == t[i + 1]);
            assert(rest[j] == t[j + 1]);
        }
        lemma_insert_sorted_le(keys, x, rest);
        let sub = spec_insert_sorted(keys, x, rest);
        assert(out =~= seq![t[0]] + sub);
        assert forall|e: DocModel| #[trigger] out.contains(e) implies e == x || t.contains(e) by {
            let q = choose|q: int| 0 <= q < out.len() && out[q] == e;
            if q == 0 {
                assert(t[0] == e);
                assert(t.contains(e));
            } else {
                assert(sub[q - 1] == e);
                assert(sub.contains(e));
                if e != x {
                    assert(rest.contains(e));
                    let q2 = choose|q2: int| 0 <= q2 < rest.len() && rest[q2] == e;
                    assert(t[q2 + 1] == e);
                    assert(t.contains(e));
                }
            }
        }
        assert forall|i: int, j: int|
            0 <= i < j < out.len() implies spec_sort_cmp(
            keys,
            #[trigger] out[i],
            #[trigger] out[j],
        ) != Cmp::Gt by {
            if i == 0 {
                let e = out[j];
                assert(sub[j - 1] == e);
                assert(sub.contains(e));
                if e == x {
                    // the new document does not order below the head it passed
                    lemma_sort_cmp_total(keys, t[0], x, x);
                } else {
                    assert(rest.contains(e));
                    let q2 = choose|q2: int| 0 <= q2 < rest.len() && rest[q2] == e;
                    assert(t[q2 + 1] == e);
                    assert(spec_sort_cmp(keys, t[0], t[q2 + 1]) != Cmp::Gt);
                }
            } else {
                assert(out[i] == sub[i - 1]);
                assert(out[j] == sub[j - 1]);
            }
        }
    } else {
        assert(out =~= seq![x] + t);
        assert forall|e: DocModel| #[trigger] out.contains(e) implies e == x || t.contains(e) by {
            let q = choose|q: int| 0 <= q < out.len() && out[q] == e;
            if q > 0 {
                assert(t[q - 1] == e);
                assert(t.contains(e));
            }
        }
        assert forall|i: int, j: int|
            0 <= i < j < out.len() implies spec_sort_cmp(
            keys,
            #[trigger] out[i],
            #[trigger] out[j],
        ) != Cmp::Gt by {
            if i == 0 {
                if j == 1 {
                    assert(spec_sort_cmp(keys, x, t[0]) == Cmp::Lt);
                } else {
                    // below the old head, hence below everything after it
                    lemma_sort_cmp_total(keys, x, t[0], t[j - 1]);
                    assert(spec_sort_cmp(keys, t[0], t[j - 1]) != Cmp::Gt);
                }
            } else {
                assert(out[i] == t[i - 1]);
                assert(out[j] == t[j - 1]);
            }
        }
    }
}

/// Inserting into a sorted run puts the new document after every earlier
/// document it ties with, and before no tie: the ties of the result are
/// the old ties with the new document appended when it ties itself.
#[verifier::rlimit(100)]
pub proof fn lemma_insert_ties(keys: Seq<SortKey>, x: DocModel, t: Seq<DocModel>, w: DocModel)
    requires
        spec_sorted_le(keys, t),
    ensures
        spec_ties(keys, spec_insert_sorted(keys, x, t), w) == if spec_sort_cmp(keys, x, w)
            == Cmp::Eq {
            spec_ties(keys, t, w).push(x)
        } else {
            spec_ties(keys, t, w)
        },
    decreases t.len(),
{
    broadcast use vstd::seq_lib::group_filter_ensures;
    broadcast use Seq::filter_distributes_over_add;

    reveal_with_fuel(Seq::filter, 3);
    let pred = spec_ties_pred(keys, w);
    let out = spec_insert_sorted(keys, x, t);
    let single_x = seq![x];
    assert(single_x.drop_last() =~= Seq::<DocModel>::empty());
    assert(single_x.filter(pred) == if pred(x) {
        Seq::<DocModel>::empty().push(x)
    } else {
        Seq::<DocModel>::empty()
    });
    if t.len() == 0 {
        assert(out =~= single_x);
        assert(spec_ties(keys, t, w) =~= Seq::<DocModel>::empty());
        if pred(x) {
            assert(single_x.filter(pred) =~= spec_ties(keys, t, w).push(x));
        }
    } else if !spec_sort_lt(keys, x, t[0]) {
        let rest = t.drop_first();
        assert forall|i: int, j: int|
            0 <= i < j < rest.len() implies spec_sort_cmp(
            keys,
            #[trigger] rest[i],
            #[trigger] rest[j],
        ) != Cmp::Gt by {
            assert(rest[i] == t[i + 1]);
            assert(rest[j] == t[j + 1]);
        }
        lemma_insert_ties(keys, x, rest, w);
        let sub = spec_insert_sorted(keys, x, rest);
        let head = seq![t[0]];
        assert(out =~= head + sub);
        assert(t =~= head + rest);
        assert(out.filter(pred) == head.filter(pred) + sub.filter(pred));
        assert(t.filter(pred) == head.filter(pred) + rest.filter(pred));
        assert(head.drop_last() =~= Seq::<DocModel>::empty());
        if pred(x) {
            assert(sub.filter(pred) == rest.filter(pred).push(x));
            assert(head.filter(pred) + rest.filter(pred).push(x) =~= (head.filter(pred)
                + rest.filter(pred)).push(x));
        }
    } else {
        // the new document lands in front: no earlier tie may exist
        assert(out =~= single_x + t);
        assert(out.filter(pred) == single_x.filter(pred) + t.filter(pred));
        if pred(x) {
            assert forall|q: int| 0 <= q < t.len() implies !pred(#[trigger] t[q]) by {
                if pred(t[q]) {
                    lemma_sort_cmp_total(keys, x, w, t[q]);
                    lemma_sort_cmp_total(keys, t[q], w, x);
                    // so the new document ties with t[q] ...
                    assert(spec_sort_cmp(keys, x, t[q]) == Cmp::Eq);
                    // ... yet orders strictly below the head and so below t[q]
                    if q > 0 {
                        lemma_sort_cmp_total(keys, x, t[0], t[q]);
                        assert(spec_sort_cmp(keys, x, t[q]) == Cmp::Lt);
                    }
                    assert(false);
                }
            }
            if t.filter(pred).len() > 0 {
                lemma_filter_all(t, pred);
                assert(pred(t.filter(pred)[0]));
                assert(t.contains(t.filter(pred)[0]));
                let q = choose|q: int| 0 <= q < t.len() && t[q] == t.filter(pred)[0];
                assert(false);
            }
            assert(t.filter(pred) =~= Seq::<DocModel>::empty());
            assert(single_x.filter(pred) + t.filter(pred) =~= t.filter(pred).push(x));
        } else {
            assert(single_x.filter(pred) =~= Seq::<DocModel>::empty());
            assert(single_x.filter(pred) + t.filter(pred) =~= t.filter(pred));
        }
    }
}

/// A sorted run stays sorted as the sort builds it up.
pub proof fn lemma_sort_docs_sorted(keys: Seq<SortKey>, s: Seq<DocModel>)
    ensures
        spec_sorted_le(keys, spec_sort_docs(keys, s)),
    decreases s.len(),
{
    if s.len() > 0 {
        lemma_sort_docs_sorted(keys, s.drop_last());
        lemma_insert_sorted_le(keys, s.last(), spec_sort_docs(keys, s.drop_last()));
    }
}

/// Sorting is stable: the documents that tie with any witness document
/// under the sort keys come out in exactly the order they went in.
pub proof fn law_sort_stable(keys: Seq<SortKey>, s: Seq<DocModel>, w: DocModel)
    ensures
        spec_ties(keys, spec_sort_docs(keys, s), w) == spec_ties(keys, s, w),
    decreases s.len(),
{
    reveal_with_fuel(Seq::filter, 3);
    let pred = spec_ties_pred(keys, w);
    if s.len() > 0 {
        let t = s.drop_last();
        let x = s.last();
        law_sort_stable(keys, t, w);
        lemma_sort_docs_sorted(keys, t);
        lemma_insert_ties(keys, x, spec_sort_docs(keys, t), w);
        assert(s.filter(pred) == if pred(x) {
            t.filter(pred).push(x)
        } else {
            t.filter(pred)
        });
    }
}


/// The member counts of a list of groups, summed.
pub open spec fn spec_members_total(s: Seq<DocModel>, by: Seq<char>, groups: Seq<SpecVal>) -> int
    decreases groups.len(),
{
    if groups.len() == 0 {
        0
    } else {
        spec_members(s, by, groups[0]).len() + spec_members_total(s, by, groups.drop_first())
    }
}

/// How often a value occurs in a sequence.
pub open spec fn spec_count_occ(g: Seq<SpecVal>, k: SpecVal) -> int
    decreases g.len(),
{
    if g.len() == 0 {
        0
    } else {
        (if g[0] == k {
            1int
        } else {
            0int
        }) + spec_count_occ(g.drop_first(), k)
    }
}

pub proof fn lemma_count_occ_of_distinct(g: Seq<SpecVal>, k: SpecVal)
    requires
        forall|i: int, j: int| 0 <= i < j < g.len() ==> g[i] != g[j],
    ensures
        g.contains(k) ==> spec_count_occ(g, k) == 1,
        !g.contains(k) ==> spec_count_occ(g, k) == 0,
    decreases g.len(),
{
    if g.len() > 0 {
        let t = g.drop_first();
        assert forall|i: int, j: int| 0 <= i < j < t.len() implies t[i] != t[j] by {
            assert(t[i] == g[i + 1]);
            assert(t[j] == g[j + 1]);
        }
        lemma_count_occ_of_distinct(t, k);
        if g[0] == k {
            if t.contains(k) {
                let w = choose|w: int| 0 <= w < t.len() && t[w] == k;
                assert(g[w + 1] == k);
                assert(false);
            }
        } else {
            if g.contains(k) {
                let w = choose|w: int| 0 <= w < g.len() && g[w] == k;
                assert(t[w - 1] == k);
                assert(t.contains(k));
            }
            if t.contains(k) {
                let w = choose|w: int| 0 <= w < t.len() && t[w] == k;
                assert(g[w + 1] == k);
                assert(g.contains(k));
            }
        }
    }
}

/// One more input document raises exactly the count of its own key.
pub proof fn lemma_total_step(t: Seq<DocModel>, by: Seq<char>, x: DocModel, g: Seq<SpecVal>)
    ensures
        spec_members_total(t.push(x), by, g) == spec_members_total(t, by, g) + spec_count_occ(
            g,
            spec_group_key(x, by),
        ),
    decreases g.len(),
{
    if g.len() > 0 {
        let k = spec_group_key(x, by);
        lemma_members_step(t, by, g[0], x);
        lemma_total_step(t, by, x, g.drop_first());
        assert(spec_members_total(t.push(x), by, g) == spec_members(t.push(x), by, g[0]).len()
            + spec_members_total(t.push(x), by, g.drop_first()));
        assert(spec_members(t.push(x), by, g[0]).len() == spec_members(t, by, g[0]).len() + (
        if g[0] == k {
            1int
        } else {
            0int
        }));
        assert(spec_count_occ(g, k) == (if g[0] == k {
            1int
        } else {
            0int
        }) + spec_count_occ(g.drop_first(), k));
    }
}

/// Appending one group adds exactly its member count.
pub proof fn lemma_total_push(s: Seq<DocModel>, by: Seq<char>, g: Seq<SpecVal>, k: SpecVal)
    ensures
        spec_members_total(s, by, g.push(k)) == spec_members_total(s, by, g) + spec_members(
            s,
            by,
            k,
        ).len(),
    decreases g.len(),
{
    let whole = g.push(k);
    if g.len() == 0 {
        assert(whole[0] == k);
        assert(whole.drop_first() =~= Seq::<SpecVal>::empty());
        assert(spec_members_total(s, by, whole) == spec_members(s, by, k).len()
            + spec_members_total(s, by, whole.drop_first()));
        assert(spec_members_total(s, by, whole.drop_first()) == 0);
        assert(spec_members_total(s, by, g) == 0);
    } else {
        assert(whole[0] == g[0]);
        assert(whole.drop_first() =~= g.drop_first().push(k));
        lemma_total_push(s, by, g.drop_first(), k);
        assert(spec_members_total(s, by, whole) == spec_members(s, by, g[0]).len()
            + spec_members_total(s, by, whole.drop_first()));
        assert(spec_members_total(s, by, whole.drop_first()) == spec_members_total(
            s,
            by,
            g.drop_first(),
        ) + spec_members(s, by, k).len());
        assert(spec_members_total(s, by, g) == spec_members(s, by, g[0]).len()
            + spec_members_total(s, by, g.drop_first()));
    }
}

/// A key that never occurs in the input heads an empty member list.
pub proof fn lemma_members_of_absent_key(s: Seq<DocModel>, by: Seq<char>, k: SpecVal)
    requires
        forall|j: int| 0 <= j < s.len() ==> spec_group_key(#[trigger] s[j], by) != k,
    ensures
        spec_members(s, by, k).len() == 0,
{
    let mem = spec_members(s, by, k);
    if mem.len() > 0 {
        lemma_filter_all(s, |d: DocModel| spec_group_key(d, by) == k);
        assert(spec_group_key(mem[0], by) == k);
        assert(s.contains(mem[0]));
        let w = choose|w: int| 0 <= w < s.len() && s[w] == mem[0];
        assert(false);
    }
}

/// The `$sum: 1` counts of all output groups total the input length: over
/// the distinct first-seen keys, the member counts add up to every input
/// document counted exactly once.
pub proof fn law_group_counts_total(s: Seq<DocModel>, by: Seq<char>)
    ensures
        spec_members_total(
            s,
            by,
            spec_distinct(s.map(|i: int, d: DocModel| spec_group_key(d, by))),
        ) == s.len(),
    decreases s.len(),
{
    let ks = s.map(|i: int, d: DocModel| spec_group_key(d, by));
    let groups = spec_distinct(ks);
    if s.len() == 0 {
        assert(ks =~= Seq::<SpecVal>::empty());
        assert(groups =~= Seq::<SpecVal>::empty());
    } else {
        let t = s.drop_last();
        let x = s.last();
        let k = spec_group_key(x, by);
        let kt = t.map(|i: int, d: DocModel| spec_group_key(d, by));
        assert(kt =~= ks.drop_last());
        assert(ks.last() == k);
        let gt = spec_distinct(kt);
        law_group_counts_total(t, by);
        lemma_distinct_props(kt);
        assert(t.push(x) =~= s);
        lemma_total_step(t, by, x, gt);
        if gt.contains(k) {
            assert(groups == gt);
            lemma_count_occ_of_distinct(gt, k);
            assert(spec_members_total(s, by, gt) == t.len() + 1);
        } else {
            assert(groups == gt.push(k));
            lemma_count_occ_of_distinct(gt, k);
            assert(spec_members_total(s, by, gt) == t.len());
            lemma_total_push(s, by, gt, k);
            // the fresh key's group holds the new document alone
            assert(!kt.contains(k));
            assert forall|j: int|
                0 <= j < t.len() implies spec_group_key(#[trigger] t[j], by) != k by {
                if spec_group_key(t[j], by) == k {
                    assert(kt[j] == k);
                    assert(kt.contains(k));
                }
            }
            lemma_members_of_absent_key(t, by, k);
            lemma_members_step(t, by, k, x);
            assert(spec_members(s, by, k).len() == 1);
        }
    }
}

} // verus!
