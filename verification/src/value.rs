use vstd::prelude::*;

verus! {

broadcast use {
    vstd::std_specs::vec::group_vec_axioms,
    vstd::seq::group_seq_axioms,
    vstd::seq_lib::group_seq_lib_default,
};

/// Mathematical model of a dynamic document value: the same shape as
/// `Value`, with mathematical integers and sequences in place of the
/// machine types. All contracts of this crate speak of this model.
#[verifier::ext_equal]
pub enum SpecVal {
    Null,
    Bool(bool),
    Int32(int),
    Int64(int),
    /// IEEE-754 bit pattern, compared and ordered by its bits.
    Double(u64),
    Str(Seq<char>),
    /// A UTC instant, in milliseconds since the Unix epoch.
    DateTime(int),
    Binary(Seq<u8>),
    /// Twelve identifier bytes.
    ObjectId(Seq<u8>),
    Array(Seq<SpecVal>),
    Doc(Seq<(Seq<char>, SpecVal)>),
}

/// A dynamic, schema-less value: the tagged union over every shape a
/// stored field can take, including nested arrays and documents.
#[derive(Debug)]
pub enum Value {
    Null,
    Bool(bool),
    Int32(i32),
    Int64(i64),
    /// IEEE-754 bit pattern of a double, kept as its raw bits.
    Double(u64),
    Str(String),
    /// A UTC instant, in milliseconds since the Unix epoch.
    DateTime(i64),
    Binary(Vec<u8>),
    /// Twelve identifier bytes.
    ObjectId(Vec<u8>),
    Array(Vec<Value>),
    Doc(Document),
}

/// An ordered mapping from string keys to values: the unit of storage.
#[derive(Debug)]
pub struct Document {
    pub fields: Vec<(String, Value)>,
}

/// The model of one exec value.
pub open spec fn val_view(v: Value) -> SpecVal
    decreases v,
{
    match v {
        Value::Null => SpecVal::Null,
        Value::Bool(b) => SpecVal::Bool(b),
        Value::Int32(n) => SpecVal::Int32(n as int),
        Value::Int64(n) => SpecVal::Int64(n as int),
        Value::Double(bits) => SpecVal::Double(bits),
        Value::Str(s) => SpecVal::Str(s@),
        Value::DateTime(ms) => SpecVal::DateTime(ms as int),
        Value::Binary(bs) => SpecVal::Binary(bs@),
        Value::ObjectId(bs) => SpecVal::ObjectId(bs@),
        Value::Array(vs) => SpecVal::Array(arr_view(vs@)),
        Value::Doc(d) => SpecVal::Doc(pairs_view(d.fields@)),
    }
}

/// The models of the elements of an array, in order.
pub open spec fn arr_view(vs: Seq<Value>) -> Seq<SpecVal>
    decreases vs,
{
    if vs.len() == 0 {
        Seq::empty()
    } else {
        seq![val_view(vs[0])] + arr_view(vs.drop_first())
    }
}

/// The models of the key/value pairs of a document, in order.
pub open spec fn pairs_view(ps: Seq<(String, Value)>) -> Seq<(Seq<char>, SpecVal)>
    decreases ps,
{
    if ps.len() == 0 {
        Seq::empty()
    } else {
        seq![(ps[0].0@, val_view(ps[0].1))] + pairs_view(ps.drop_first())
    }
}

pub broadcast proof fn lemma_arr_view(vs: Seq<Value>)
    ensures
        (#[trigger] arr_view(vs)).len() == vs.len(),
        forall|i: int| 0 <= i < vs.len() ==> arr_view(vs)[i] == val_view(vs[i]),
    decreases vs,
{
    if vs.len() > 0 {
        lemma_arr_view(vs.drop_first());
    }
}

pub broadcast proof fn lemma_pairs_view(ps: Seq<(String, Value)>)
    ensures
        (#[trigger] pairs_view(ps)).len() == ps.len(),
        forall|i: int|
            0 <= i < ps.len() ==> pairs_view(ps)[i] == (ps[i].0@, val_view(ps[i].1)),
    decreases ps,
{
    if ps.len() > 0 {
        lemma_pairs_view(ps.drop_first());
    }
}

impl View for Value {
    type V = SpecVal;

    open spec fn view(&self) -> SpecVal {
        val_view(*self)
    }
}

impl View for Document {
    type V = Seq<(Seq<char>, SpecVal)>;

    open spec fn view(&self) -> Seq<(Seq<char>, SpecVal)> {
        pairs_view(self.fields@)
    }
}

/// Index of the first pair whose key is `k`, or `ps.len()` when no pair has it.
pub open spec fn spec_key_idx(ps: Seq<(Seq<char>, SpecVal)>, k: Seq<char>) -> int
    decreases ps,
{
    if ps.len() == 0 {
        0
    } else if ps[0].0 == k {
        0
    } else {
        1 + spec_key_idx(ps.drop_first(), k)
    }
}

pub open spec fn spec_has_key(ps: Seq<(Seq<char>, SpecVal)>, k: Seq<char>) -> bool {
    spec_key_idx(ps, k) < ps.len()
}

/// The value stored under key `k`, when the document has that key.
pub open spec fn spec_get(ps: Seq<(Seq<char>, SpecVal)>, k: Seq<char>) -> Option<SpecVal> {
    if spec_has_key(ps, k) {
        Some(ps[spec_key_idx(ps, k)].1)
    } else {
        None
    }
}

/// Replace the value under `k` in place, or append the pair when absent.
pub open spec fn spec_set(
    ps: Seq<(Seq<char>, SpecVal)>,
    k: Seq<char>,
    v: SpecVal,
) -> Seq<(Seq<char>, SpecVal)> {
    if spec_has_key(ps, k) {
        ps.update(spec_key_idx(ps, k), (k, v))
    } else {
        ps.push((k, v))
    }
}

pub broadcast proof fn lemma_key_idx(ps: Seq<(Seq<char>, SpecVal)>, k: Seq<char>)
    ensures
        0 <= #[trigger] spec_key_idx(ps, k) <= ps.len(),
        spec_key_idx(ps, k) < ps.len() ==> ps[spec_key_idx(ps, k)].0 == k,
        forall|j: int| 0 <= j < spec_key_idx(ps, k) ==> (#[trigger] ps[j]).0 != k,
    decreases ps,
{
    if ps.len() > 0 && ps[0].0 != k {
        lemma_key_idx(ps.drop_first(), k);
        assert forall|j: int| 0 <= j < spec_key_idx(ps, k) implies (#[trigger] ps[j]).0 != k by {
            if j > 0 {
                assert(ps.drop_first()[j - 1] == ps[j]);
            }
        }
    }
}

/// Whether every key occurs at most once: the shape every stored document keeps.
pub open spec fn keys_unique(ps: Seq<(Seq<char>, SpecVal)>) -> bool {
    forall|i: int, j: int|
        0 <= i < j < ps.len() ==> (#[trigger] ps[i]).0 != (#[trigger] ps[j]).0
}

/// Character-for-character string equality.
pub fn str_eq(a: &str, b: &str) -> (r: bool)
    ensures
        r == (a@ == b@),
{
    let a_len = a.unicode_len();
    let b_len = b.unicode_len();
    if a_len != b_len {
        assert(a@ != b@) by {
            assert(a@.len() != b@.len());
        }
        return false;
    }
    let mut i: usize = 0;
    while i < a_len
        invariant
            a_len == a@.len(),
            b_len == b@.len(),
            a@.len() == b@.len(),
            0 <= i <= a_len,
            forall|j: int| 0 <= j < i ==> a@[j] == b@[j],
        decreases a_len - i,
    {
        let ca = a.get_char(i);
        let cb = b.get_char(i);
        if ca as u32 != cb as u32 {
            assert(a@ != b@) by {
                assert(a@[i as int] != b@[i as int]);
            }
            return false;
        }
        assert(a@[i as int] == b@[i as int]);
        i += 1;
    }
    proof {
        assert(a@ =~= b@);
    }
    true
}

impl Value {
    /// Structural equality of two values: equal models. Document-valued
    /// operands compare key by key in stored order.
    pub fn val_eq(&self, other: &Value) -> (r: bool)
        ensures
            r == (self@ == other@),
        decreases *self,
    {
        match (self, other) {
            (Value::Null, Value::Null) => true,
            (Value::Bool(x), Value::Bool(y)) => *x == *y,
            (Value::Int32(x), Value::Int32(y)) => *x == *y,
            (Value::Int64(x), Value::Int64(y)) => *x == *y,
            (Value::Double(x), Value::Double(y)) => *x == *y,
            (Value::Str(x), Value::Str(y)) => str_eq(x.as_str(), y.as_str()),
            (Value::DateTime(x), Value::DateTime(y)) => *x == *y,
            (Value::Binary(x), Value::Binary(y)) => bytes_eq(x, y),
            (Value::ObjectId(x), Value::ObjectId(y)) => bytes_eq(x, y),
            (Value::Array(xs), Value::Array(ys)) => {
                proof {
                    lemma_arr_view(xs@);
                    lemma_arr_view(ys@);
                }
                if xs.len() != ys.len() {
                    return false;
                }
                let n = xs.len();
                let mut i: usize = 0;
                while i < n
                    invariant
                        *self == Value::Array(*xs),
                        *other == Value::Array(*ys),
                        n == xs@.len(),
                        xs@.len() == ys@.len(),
                        0 <= i <= n,
                        forall|j: int| 0 <= j < i ==> val_view(xs@[j]) == val_view(ys@[j]),
                    decreases n - i,
                {
                    proof {
                        assert(decreases_to!(*self => xs@[i as int])) by {
                            assert(decreases_to!(*self => self->Array_0));
                            assert(decreases_to!(self->Array_0 => self->Array_0@));
                            assert(decreases_to!(self->Array_0@ => self->Array_0@[i as int]));
                        }
                    }
                    if !xs[i].val_eq(&ys[i]) {
                        proof {
                            lemma_arr_view(xs@);
                            lemma_arr_view(ys@);
                            assert(arr_view(xs@)[i as int] != arr_view(ys@)[i as int]);
                        }
                        return false;
                    }
                    i += 1;
                }
                proof {
                    lemma_arr_view(xs@);
                    lemma_arr_view(ys@);
                    assert(arr_view(xs@) =~= arr_view(ys@));
                }
                true
            },
            (Value::Doc(x), Value::Doc(y)) => x.doc_eq(y),
            _ => {
                assert(self@ != other@);
                false
            },
        }
    }

    /// A fully independent copy with the same model.
    pub fn deep_copy(&self) -> (r: Value)
        ensures
            r@ == self@,
        decreases *self,
    {
        match self {
            Value::Null => Value::Null,
            Value::Bool(b) => Value::Bool(*b),
            Value::Int32(n) => Value::Int32(*n),
            Value::Int64(n) => Value::Int64(*n),
            Value::Double(bits) => Value::Double(*bits),
            Value::Str(s) => Value::Str(s.clone()),
            Value::DateTime(ms) => Value::DateTime(*ms),
            Value::Binary(bs) => Value::Binary(copy_bytes(bs)),
            Value::ObjectId(bs) => Value::ObjectId(copy_bytes(bs)),
            Value::Array(vs) => {
                let n = vs.len();
                let mut out: Vec<Value> = Vec::new();
                let mut i: usize = 0;
                while i < n
                    invariant
                        *self == Value::Array(*vs),
                        n == vs@.len(),
                        0 <= i <= n,
                        out@.len() == i,
                        forall|j: int| 0 <= j < i ==> val_view(out@[j]) == val_view(vs@[j]),
                    decreases n - i,
                {
                    proof {
                        assert(decreases_to!(*self => vs@[i as int])) by {
                            assert(decreases_to!(*self => self->Array_0));
                            assert(decreases_to!(self->Array_0 => self->Array_0@));
                            assert(decreases_to!(self->Array_0@ => self->Array_0@[i as int]));
                        }
                    }
                    out.push(vs[i].deep_copy());
                    i += 1;
                }
                proof {
                    lemma_arr_view(vs@);
                    lemma_arr_view(out@);
                    assert(arr_view(out@) =~= arr_view(vs@));
                }
                Value::Array(out)
            },
            Value::Doc(d) => Value::Doc(d.deep_copy()),
        }
    }
}

/// Byte-for-byte copy of a byte vector.
pub fn copy_bytes(bs: &Vec<u8>) -> (r: Vec<u8>)
    ensures
        r@ == bs@,
{
    let n = bs.len();
    let mut out: Vec<u8> = Vec::new();
    let mut i: usize = 0;
    while i < n
        invariant
            n == bs@.len(),
            0 <= i <= n,
            out@ == bs@.take(i as int),
        decreases n - i,
    {
        out.push(bs[i]);
        proof {
            assert(out@ =~= bs@.take(i + 1));
        }
        i += 1;
    }
    proof {
        assert(bs@.take(n as int) =~= bs@);
    }
    out
}

/// Byte-for-byte equality of two byte vectors.
pub fn bytes_eq(a: &Vec<u8>, b: &Vec<u8>) -> (r: bool)
    ensures
        r == (a@ == b@),
{
    if a.len() != b.len() {
        return false;
    }
    let n = a.len();
    let mut i: usize = 0;
    while i < n
        invariant
            n == a@.len(),
            a@.len() == b@.len(),
            0 <= i <= n,
            forall|j: int| 0 <= j < i ==> a@[j] == b@[j],
        decreases n - i,
    {
        if a[i] != b[i] {
            assert(a@[i as int] != b@[i as int]);
            return false;
        }
        i += 1;
    }
    proof {
        assert(a@ =~= b@);
    }
    true
}

impl Document {
    /// Structural equality of two documents: equal models, key by key in
    /// stored order.
    pub fn doc_eq(&self, other: &Document) -> (r: bool)
        ensures
            r == (self@ == other@),
        decreases *self,
    {
        proof {
            lemma_pairs_view(self.fields@);
            lemma_pairs_view(other.fields@);
        }
        if self.fields.len() != other.fields.len() {
            return false;
        }
        let n = self.fields.len();
        let mut i: usize = 0;
        while i < n
            invariant
                n == self.fields@.len(),
                self.fields@.len() == other.fields@.len(),
                0 <= i <= n,
                forall|j: int|
                    0 <= j < i ==> (self.fields@[j].0@, val_view(self.fields@[j].1)) == (
                    other.fields@[j].0@,
                    val_view(other.fields@[j].1),
                ),
            decreases n - i,
        {
            proof {
                assert(decreases_to!(*self => self.fields@[i as int].1)) by {
                    assert(decreases_to!(*self => self.fields));
                    assert(decreases_to!(self.fields => self.fields@));
                    assert(decreases_to!(self.fields@ => self.fields@[i as int]));
                    assert(decreases_to!(self.fields@[i as int] => self.fields@[i as int].1));
                }
            }
            let keys_same = str_eq(self.fields[i].0.as_str(), other.fields[i].0.as_str());
            if !keys_same || !self.fields[i].1.val_eq(&other.fields[i].1) {
                proof {
                    lemma_pairs_view(self.fields@);
                    lemma_pairs_view(other.fields@);
                    assert(pairs_view(self.fields@)[i as int] != pairs_view(
                        other.fields@,
                    )[i as int]);
                }
                return false;
            }
            i += 1;
        }
        proof {
            lemma_pairs_view(self.fields@);
            lemma_pairs_view(other.fields@);
            assert(pairs_view(self.fields@) =~= pairs_view(other.fields@));
        }
        true
    }

    /// A fully independent copy with the same model.
    pub fn deep_copy(&self) -> (r: Document)
        ensures
            r@ == self@,
        decreases *self,
    {
        let n = self.fields.len();
        let mut out: Vec<(String, Value)> = Vec::new();
        let mut i: usize = 0;
        while i < n
            invariant
                n == self.fields@.len(),
                0 <= i <= n,
                out@.len() == i,
                forall|j: int|
                    0 <= j < i ==> (out@[j].0@, val_view(out@[j].1)) == (
                    self.fields@[j].0@,
                    val_view(self.fields@[j].1),
                ),
            decreases n - i,
        {
            proof {
                assert(decreases_to!(*self => self.fields@[i as int].1)) by {
                    assert(decreases_to!(*self => self.fields));
                    assert(decreases_to!(self.fields => self.fields@));
                    assert(decreases_to!(self.fields@ => self.fields@[i as int]));
                    assert(decreases_to!(self.fields@[i as int] => self.fields@[i as int].1));
                }
            }
            out.push((self.fields[i].0.clone(), self.fields[i].1.deep_copy()));
            i += 1;
        }
        proof {
            lemma_pairs_view(self.fields@);
            lemma_pairs_view(out@);
            assert(pairs_view(out@) =~= pairs_view(self.fields@));
        }
        Document { fields: out }
    }

    /// The empty document.
    pub fn new() -> (r: Document)
        ensures
            r@ =~= Seq::<(Seq<char>, SpecVal)>::empty(),
    {
        Document { fields: Vec::new() }
    }

    /// The value under `key`, or `None` when the document has no such key.
    pub fn get<'a>(&'a self, key: &str) -> (r: Option<&'a Value>)
        ensures
            match r {
                Some(v) => spec_get(self@, key@) == Some(v@),
                None => spec_get(self@, key@) is None,
            },
    {
        proof {
            lemma_pairs_view(self.fields@);
            lemma_key_idx(self@, key@);
        }
        let n = self.fields.len();
        let mut i: usize = 0;
        while i < n
            invariant
                n == self.fields@.len(),
                0 <= i <= n,
                self@.len() == n,
                forall|j: int| 0 <= j < i ==> (#[trigger] self@[j]).0 != key@,
            decreases n - i,
        {
            proof {
                lemma_pairs_view(self.fields@);
            }
            if str_eq(self.fields[i].0.as_str(), key) {
                assert(self@[i as int].0 == key@);
                proof {
                    lemma_key_idx(self@, key@);
                }
                assert(spec_key_idx(self@, key@) == i);
                return Some(&self.fields[i].1);
            }
            i += 1;
        }
        proof {
            lemma_key_idx(self@, key@);
        }
        None
    }

    /// Whether the document has the key.
    pub fn has_key(&self, key: &str) -> (r: bool)
        ensures
            r == spec_has_key(self@, key@),
    {
        match self.get(key) {
            Some(_) => true,
            None => false,
        }
    }

    /// Replace the value under `key` in place, or append the pair when absent.
    pub fn set(&mut self, key: &str, v: Value)
        ensures
            final(self)@ =~= spec_set(old(self)@, key@, v@),
    {
        proof {
            lemma_pairs_view(self.fields@);
            lemma_key_idx(self@, key@);
        }
        let n = self.fields.len();
        let mut i: usize = 0;
        while i < n
            invariant
                self.fields@ == old(self).fields@,
                n == self.fields@.len(),
                0 <= i <= n,
                self@.len() == n,
                forall|j: int| 0 <= j < i ==> (#[trigger] self@[j]).0 != key@,
        decreases n - i,
        {
            proof {
                lemma_pairs_view(self.fields@);
            }
            if str_eq(self.fields[i].0.as_str(), key) {
                assert(self@[i as int].0 == key@);
                proof {
                    lemma_key_idx(self@, key@);
                }
                assert(spec_key_idx(self@, key@) == i);
                let ghost old_fields = self.fields@;
                let ghost gv = v@;
                self.fields[i] = (String::from_str(key), v);
                proof {
                    lemma_pairs_view(self.fields@);
                    lemma_pairs_view(old_fields);
                    let target = spec_set(pairs_view(old_fields), key@, gv);
                    assert forall|j: int|
                        0 <= j < self.fields@.len() implies pairs_view(self.fields@)[j]
                        == target[j] by {
                        if j != i {
                            assert(self.fields@[j] == old_fields[j]);
                        }
                    }
                    assert(pairs_view(self.fields@) =~= target);
                }
                return ;
            }
            i += 1;
        }
        proof {
            lemma_key_idx(self@, key@);
        }
        let ghost old_fields = self.fields@;
        let ghost gv = v@;
        self.fields.push((String::from_str(key), v));
        proof {
            lemma_pairs_view(self.fields@);
            lemma_pairs_view(old_fields);
            let target = spec_set(pairs_view(old_fields), key@, gv);
            assert forall|j: int|
                0 <= j < self.fields@.len() implies pairs_view(self.fields@)[j] == target[j] by {
                if j < old_fields.len() {
                    assert(self.fields@[j] == old_fields[j]);
                }
            }
            assert(pairs_view(self.fields@) =~= target);
        }
    }
}

/// Outcome of an ordering test.
#[derive(Clone, Copy, PartialEq, Eq, Structural, Debug)]
pub enum Cmp {
    Lt,
    Eq,
    Gt,
}

pub open spec fn spec_cmp_int(x: int, y: int) -> Cmp {
    if x < y {
        Cmp::Lt
    } else if x == y {
        Cmp::Eq
    } else {
        Cmp::Gt
    }
}

/// Rank of a value's tag in the canonical order of tags. Values of
/// different ranks order by rank; `Int32` and `Int64` share a rank and
/// compare numerically.
pub open spec fn spec_rank(v: SpecVal) -> int {
    match v {
        SpecVal::Null => 0,
        SpecVal::Int32(_) => 1,
        SpecVal::Int64(_) => 1,
        SpecVal::Double(_) => 2,
        SpecVal::Str(_) => 3,
        SpecVal::Doc(_) => 4,
        SpecVal::Array(_) => 5,
        SpecVal::Binary(_) => 6,
        SpecVal::ObjectId(_) => 7,
        SpecVal::Bool(_) => 8,
        SpecVal::DateTime(_) => 9,
    }
}

/// Total order on values: by rank, then within a rank by numeric value,
/// bit pattern, lexicographic characters or bytes, elementwise for
/// arrays, and pairwise in stored order for documents.
pub open spec fn spec_val_cmp(a: SpecVal, b: SpecVal) -> Cmp
    decreases a,
{
    match (a, b) {
        (SpecVal::Null, SpecVal::Null) => Cmp::Eq,
        (SpecVal::Bool(x), SpecVal::Bool(y)) => spec_cmp_int(
            if x { 1 } else { 0 },
            if y { 1 } else { 0 },
        ),
        (SpecVal::Int32(x), SpecVal::Int32(y)) => spec_cmp_int(x, y),
        (SpecVal::Int32(x), SpecVal::Int64(y)) => spec_cmp_int(x, y),
        (SpecVal::Int64(x), SpecVal::Int32(y)) => spec_cmp_int(x, y),
        (SpecVal::Int64(x), SpecVal::Int64(y)) => spec_cmp_int(x, y),
        (SpecVal::Double(x), SpecVal::Double(y)) => spec_cmp_int(x as int, y as int),
        (SpecVal::Str(x), SpecVal::Str(y)) => spec_chars_cmp(x, y),
        (SpecVal::DateTime(x), SpecVal::DateTime(y)) => spec_cmp_int(x, y),
        (SpecVal::Binary(x), SpecVal::Binary(y)) => spec_bytes_cmp(x, y),
        (SpecVal::ObjectId(x), SpecVal::ObjectId(y)) => spec_bytes_cmp(x, y),
        (SpecVal::Array(x), SpecVal::Array(y)) => spec_arr_cmp(x, y),
        (SpecVal::Doc(x), SpecVal::Doc(y)) => spec_pairs_cmp(x, y),
        _ => spec_cmp_int(spec_rank(a), spec_rank(b)),
    }
}

pub open spec fn spec_chars_cmp(x: Seq<char>, y: Seq<char>) -> Cmp
    decreases x.len(),
{
    if x.len() == 0 && y.len() == 0 {
        Cmp::Eq
    } else if x.len() == 0 {
        Cmp::Lt
    } else if y.len() == 0 {
        Cmp::Gt
    } else if (x[0] as u32) < (y[0] as u32) {
        Cmp::Lt
    } else if (x[0] as u32) > (y[0] as u32) {
        Cmp::Gt
    } else {
        spec_chars_cmp(x.drop_first(), y.drop_first())
    }
}

pub open spec fn spec_bytes_cmp(x: Seq<u8>, y: Seq<u8>) -> Cmp
    decreases x.len(),
{
    if x.len() == 0 && y.len() == 0 {
        Cmp::Eq
    } else if x.len() == 0 {
        Cmp::Lt
    } else if y.len() == 0 {
        Cmp::Gt
    } else if x[0] < y[0] {
        Cmp::Lt
    } else if x[0] > y[0] {
        Cmp::Gt
    } else {
        spec_bytes_cmp(x.drop_first(), y.drop_first())
    }
}

pub open spec fn spec_arr_cmp(x: Seq<SpecVal>, y: Seq<SpecVal>) -> Cmp
    decreases x,
{
    if x.len() == 0 && y.len() == 0 {
        Cmp::Eq
    } else if x.len() == 0 {
        Cmp::Lt
    } else if y.len() == 0 {
        Cmp::Gt
    } else if spec_val_cmp(x[0], y[0]) != Cmp::Eq {
        spec_val_cmp(x[0], y[0])
    } else {
        spec_arr_cmp(x.drop_first(), y.drop_first())
    }
}

pub open spec fn spec_pairs_cmp(
    x: Seq<(Seq<char>, SpecVal)>,
    y: Seq<(Seq<char>, SpecVal)>,
) -> Cmp
    decreases x,
{
    if x.len() == 0 && y.len() == 0 {
        Cmp::Eq
    } else if x.len() == 0 {
        Cmp::Lt
    } else if y.len() == 0 {
        Cmp::Gt
    } else if spec_chars_cmp(x[0].0, y[0].0) != Cmp::Eq {
        spec_chars_cmp(x[0].0, y[0].0)
    } else if spec_val_cmp(x[0].1, y[0].1) != Cmp::Eq {
        spec_val_cmp(x[0].1, y[0].1)
    } else {
        spec_pairs_cmp(x.drop_first(), y.drop_first())
    }
}

/// Lexicographic character comparison.
pub fn str_cmp(a: &str, b: &str) -> (r: Cmp)
    ensures
        r == spec_chars_cmp(a@, b@),
{
    let a_len = a.unicode_len();
    let b_len = b.unicode_len();
    proof {
        assert(a@.skip(0) =~= a@);
        assert(b@.skip(0) =~= b@);
    }
    let mut i: usize = 0;
    loop
        invariant
            a_len == a@.len(),
            b_len == b@.len(),
            0 <= i <= a_len,
            0 <= i <= b_len,
            spec_chars_cmp(a@, b@) == spec_chars_cmp(
                a@.skip(i as int),
                b@.skip(i as int),
            ),
        decreases a_len - i,
    {
        let ghost sa = a@.skip(i as int);
        let ghost sb = b@.skip(i as int);
        if i == a_len && i == b_len {
            return Cmp::Eq;
        } else if i == a_len {
            return Cmp::Lt;
        } else if i == b_len {
            return Cmp::Gt;
        }
        let ca = a.get_char(i) as u32;
        let cb = b.get_char(i) as u32;
        proof {
            assert(sa[0] == a@[i as int]);
            assert(sb[0] == b@[i as int]);
        }
        if ca < cb {
            return Cmp::Lt;
        } else if ca > cb {
            return Cmp::Gt;
        }
        proof {
            assert(sa.drop_first() =~= a@.skip(i + 1));
            assert(sb.drop_first() =~= b@.skip(i + 1));
        }
        i += 1;
    }
}

/// Lexicographic byte comparison.
pub fn bytes_cmp(a: &Vec<u8>, b: &Vec<u8>) -> (r: Cmp)
    ensures
        r == spec_bytes_cmp(a@, b@),
{
    let a_len = a.len();
    let b_len = b.len();
    proof {
        assert(a@.skip(0) =~= a@);
        assert(b@.skip(0) =~= b@);
    }
    let mut i: usize = 0;
    loop
        invariant
            a_len == a@.len(),
            b_len == b@.len(),
            0 <= i <= a_len,
            0 <= i <= b_len,
            spec_bytes_cmp(a@, b@) == spec_bytes_cmp(
                a@.skip(i as int),
                b@.skip(i as int),
            ),
        decreases a_len - i,
    {
        let ghost sa = a@.skip(i as int);
        let ghost sb = b@.skip(i as int);
        if i == a_len && i == b_len {
            return Cmp::Eq;
        } else if i == a_len {
            return Cmp::Lt;
        } else if i == b_len {
            return Cmp::Gt;
        }
        proof {
            assert(sa[0] == a@[i as int]);
            assert(sb[0] == b@[i as int]);
        }
        if a[i] < b[i] {
            return Cmp::Lt;
        } else if a[i] > b[i] {
            return Cmp::Gt;
        }
        proof {
            assert(sa.drop_first() =~= a@.skip(i + 1));
            assert(sb.drop_first() =~= b@.skip(i + 1));
        }
        i += 1;
    }
}

fn cmp_of_i64(x: i64, y: i64) -> (r: Cmp)
    ensures
        r == spec_cmp_int(x as int, y as int),
{
    if x < y {
        Cmp::Lt
    } else if x == y {
        Cmp::Eq
    } else {
        Cmp::Gt
    }
}

impl Value {
    /// Rank of this value's tag in the canonical order of tags.
    pub fn rank_of(&self) -> (r: u32)
        ensures
            r as int == spec_rank(self@),
    {
        match self {
            Value::Null => 0,
            Value::Int32(_) => 1,
            Value::Int64(_) => 1,
            Value::Double(_) => 2,
            Value::Str(_) => 3,
            Value::Doc(_) => 4,
            Value::Array(_) => 5,
            Value::Binary(_) => 6,
            Value::ObjectId(_) => 7,
            Value::Bool(_) => 8,
            Value::DateTime(_) => 9,
        }
    }

    /// Where `self` stands relative to `other` in the canonical order.
    pub fn val_cmp(&self, other: &Value) -> (r: Cmp)
        ensures
            r == spec_val_cmp(self@, other@),
        decreases *self,
    {
        let ra = self.rank_of();
        let rb = other.rank_of();
        if ra != rb {
            return cmp_of_i64(ra as i64, rb as i64);
        }
        match (self, other) {
            (Value::Null, Value::Null) => Cmp::Eq,
            (Value::Bool(x), Value::Bool(y)) => {
                let xv: i64 = if *x { 1 } else { 0 };
                let yv: i64 = if *y { 1 } else { 0 };
                cmp_of_i64(xv, yv)
            },
            (Value::Int32(x), Value::Int32(y)) => cmp_of_i64(*x as i64, *y as i64),
            (Value::Int32(x), Value::Int64(y)) => cmp_of_i64(*x as i64, *y),
            (Value::Int64(x), Value::Int32(y)) => cmp_of_i64(*x, *y as i64),
            (Value::Int64(x), Value::Int64(y)) => cmp_of_i64(*x, *y),
            (Value::Double(x), Value::Double(y)) => {
                if *x < *y {
                    Cmp::Lt
                } else if *x == *y {
                    Cmp::Eq
                } else {
                    Cmp::Gt
                }
            },
            (Value::Str(x), Value::Str(y)) => str_cmp(x.as_str(), y.as_str()),
            (Value::DateTime(x), Value::DateTime(y)) => cmp_of_i64(*x, *y),
            (Value::Binary(x), Value::Binary(y)) => bytes_cmp(x, y),
            (Value::ObjectId(x), Value::ObjectId(y)) => bytes_cmp(x, y),
            (Value::Array(xs), Value::Array(ys)) => {
                let xn = xs.len();
                let yn = ys.len();
                let n = if xn < yn { xn } else { yn };
                proof {
                    lemma_arr_view(xs@);
                    lemma_arr_view(ys@);
                    assert(arr_view(xs@).skip(0) =~= arr_view(xs@));
                    assert(arr_view(ys@).skip(0) =~= arr_view(ys@));
                }
                let mut i: usize = 0;
                loop
                    invariant
                        *self == Value::Array(*xs),
                        *other == Value::Array(*ys),
                        xn == xs@.len(),
                        yn == ys@.len(),
                        n == if xn < yn { xn } else { yn },
                        0 <= i <= n,
                        spec_arr_cmp(arr_view(xs@), arr_view(ys@)) == spec_arr_cmp(
                            arr_view(xs@).skip(i as int),
                            arr_view(ys@).skip(i as int),
                        ),
                    decreases n - i,
                {
                    proof {
                        lemma_arr_view(xs@);
                        lemma_arr_view(ys@);
                    }
                    let ghost sa = arr_view(xs@).skip(i as int);
                    let ghost sb = arr_view(ys@).skip(i as int);
                    if i == xn && i == yn {
                        return Cmp::Eq;
                    } else if i == xn {
                        return Cmp::Lt;
                    } else if i == yn {
                        return Cmp::Gt;
                    }
                    proof {
                        assert(sa[0] == arr_view(xs@)[i as int]);
                        assert(sb[0] == arr_view(ys@)[i as int]);
                        assert(decreases_to!(*self => xs@[i as int])) by {
                            assert(decreases_to!(*self => self->Array_0));
                            assert(decreases_to!(self->Array_0 => self->Array_0@));
                            assert(decreases_to!(self->Array_0@ => self->Array_0@[i as int]));
                        }
                    }
                    let c = xs[i].val_cmp(&ys[i]);
                    if !matches!(c, Cmp::Eq) {
                        return c;
                    }
                    proof {
                        assert(sa.drop_first() =~= arr_view(xs@).skip(i + 1));
                        assert(sb.drop_first() =~= arr_view(ys@).skip(i + 1));
                    }
                    i += 1;
                }
            },
            (Value::Doc(x), Value::Doc(y)) => {
                let xn = x.fields.len();
                let yn = y.fields.len();
                let n = if xn < yn { xn } else { yn };
                proof {
                    lemma_pairs_view(x.fields@);
                    lemma_pairs_view(y.fields@);
                    assert(x@.skip(0) =~= x@);
                    assert(y@.skip(0) =~= y@);
                }
                let mut i: usize = 0;
                loop
                    invariant
                        *self == Value::Doc(*x),
                        *other == Value::Doc(*y),
                        xn == x.fields@.len(),
                        yn == y.fields@.len(),
                        n == if xn < yn { xn } else { yn },
                        0 <= i <= n,
                        spec_pairs_cmp(x@, y@) == spec_pairs_cmp(
                            x@.skip(i as int),
                            y@.skip(i as int),
                        ),
                    decreases n - i,
                {
                    proof {
                        lemma_pairs_view(x.fields@);
                        lemma_pairs_view(y.fields@);
                    }
                    let ghost sa = x@.skip(i as int);
                    let ghost sb = y@.skip(i as int);
                    if i == xn && i == yn {
                        return Cmp::Eq;
                    } else if i == xn {
                        return Cmp::Lt;
                    } else if i == yn {
                        return Cmp::Gt;
                    }
                    proof {
                        assert(sa[0] == x@[i as int]);
                        assert(sb[0] == y@[i as int]);
                    }
                    let kc = str_cmp(x.fields[i].0.as_str(), y.fields[i].0.as_str());
                    if !matches!(kc, Cmp::Eq) {
                        return kc;
                    }
                    proof {
                        assert(decreases_to!(*self => x.fields@[i as int].1)) by {
                            assert(decreases_to!(*self => self->Doc_0));
                            assert(decreases_to!(self->Doc_0 => self->Doc_0.fields));
                            assert(decreases_to!(self->Doc_0.fields => self->Doc_0.fields@));
                            assert(decreases_to!(self->Doc_0.fields@ => self->Doc_0.fields@[i as int]));
                            assert(decreases_to!(self->Doc_0.fields@[i as int] => self->Doc_0.fields@[i as int].1));
                        }
                    }
                    let vc = x.fields[i].1.val_cmp(&y.fields[i].1);
                    if !matches!(vc, Cmp::Eq) {
                        return vc;
                    }
                    proof {
                        assert(sa.drop_first() =~= x@.skip(i + 1));
                        assert(sb.drop_first() =~= y@.skip(i + 1));
                    }
                    i += 1;
                }
            },
            _ => {
                proof {
                    assert(false);
                }
                Cmp::Eq
            },
        }
    }
}


/// Flip an ordering outcome.
pub open spec fn spec_cmp_flip(c: Cmp) -> Cmp {
    match c {
        Cmp::Lt => Cmp::Gt,
        Cmp::Eq => Cmp::Eq,
        Cmp::Gt => Cmp::Lt,
    }
}

/// Whether three outcomes compose as a total order asks: swapping the
/// sides flips the outcome, and below-or-equal composes.
pub open spec fn spec_cmp_laws(ab: Cmp, ba: Cmp, bc: Cmp, ac: Cmp) -> bool {
    &&& ba == spec_cmp_flip(ab)
    &&& (ab == Cmp::Eq && bc == Cmp::Eq ==> ac == Cmp::Eq)
    &&& (ab == Cmp::Lt && bc == Cmp::Lt ==> ac == Cmp::Lt)
    &&& (ab == Cmp::Eq && bc == Cmp::Lt ==> ac == Cmp::Lt)
    &&& (ab == Cmp::Lt && bc == Cmp::Eq ==> ac == Cmp::Lt)
}

/// The canonical order is a total order: comparisons flip with their
/// sides and compose transitively.
pub proof fn lemma_val_cmp_total(a: SpecVal, b: SpecVal, c: SpecVal)
    ensures
        spec_cmp_laws(
            spec_val_cmp(a, b),
            spec_val_cmp(b, a),
            spec_val_cmp(b, c),
            spec_val_cmp(a, c),
        ),
    decreases a,
{
    match (a, b, c) {
        (SpecVal::Str(x), SpecVal::Str(y), SpecVal::Str(z)) => {
            lemma_chars_cmp_total(x, y, z);
        },
        (SpecVal::Str(x), SpecVal::Str(y), _) => {
            lemma_chars_cmp_total(x, y, y);
        },
        (SpecVal::Binary(x), SpecVal::Binary(y), SpecVal::Binary(z)) => {
            lemma_bytes_cmp_total(x, y, z);
        },
        (SpecVal::Binary(x), SpecVal::Binary(y), _) => {
            lemma_bytes_cmp_total(x, y, y);
        },
        (SpecVal::ObjectId(x), SpecVal::ObjectId(y), SpecVal::ObjectId(z)) => {
            lemma_bytes_cmp_total(x, y, z);
        },
        (SpecVal::ObjectId(x), SpecVal::ObjectId(y), _) => {
            lemma_bytes_cmp_total(x, y, y);
        },
        (SpecVal::Array(x), SpecVal::Array(y), SpecVal::Array(z)) => {
            lemma_arr_cmp_total(x, y, z);
        },
        (SpecVal::Array(x), SpecVal::Array(y), _) => {
            lemma_arr_cmp_total(x, y, y);
        },
        (SpecVal::Doc(x), SpecVal::Doc(y), SpecVal::Doc(z)) => {
            lemma_pairs_cmp_total(x, y, z);
        },
        (SpecVal::Doc(x), SpecVal::Doc(y), _) => {
            lemma_pairs_cmp_total(x, y, y);
        },
        _ => {},
    }
}

pub proof fn lemma_chars_cmp_total(x: Seq<char>, y: Seq<char>, z: Seq<char>)
    ensures
        spec_cmp_laws(
            spec_chars_cmp(x, y),
            spec_chars_cmp(y, x),
            spec_chars_cmp(y, z),
            spec_chars_cmp(x, z),
        ),
    decreases x.len() + y.len() + z.len(),
{
    if x.len() > 0 && y.len() > 0 && z.len() > 0 {
        lemma_chars_cmp_total(x.drop_first(), y.drop_first(), z.drop_first());
    } else if x.len() > 0 && y.len() > 0 {
        lemma_chars_cmp_total(x.drop_first(), y.drop_first(), z);
    }
}

pub proof fn lemma_bytes_cmp_total(x: Seq<u8>, y: Seq<u8>, z: Seq<u8>)
    ensures
        spec_cmp_laws(
            spec_bytes_cmp(x, y),
            spec_bytes_cmp(y, x),
            spec_bytes_cmp(y, z),
            spec_bytes_cmp(x, z),
        ),
    decreases x.len() + y.len() + z.len(),
{
    if x.len() > 0 && y.len() > 0 && z.len() > 0 {
        lemma_bytes_cmp_total(x.drop_first(), y.drop_first(), z.drop_first());
    } else if x.len() > 0 && y.len() > 0 {
        lemma_bytes_cmp_total(x.drop_first(), y.drop_first(), z);
    }
}

pub proof fn lemma_arr_cmp_total(x: Seq<SpecVal>, y: Seq<SpecVal>, z: Seq<SpecVal>)
    ensures
        spec_cmp_laws(
            spec_arr_cmp(x, y),
            spec_arr_cmp(y, x),
            spec_arr_cmp(y, z),
            spec_arr_cmp(x, z),
        ),
    decreases x,
{
    if x.len() > 0 && y.len() > 0 && z.len() > 0 {
        lemma_val_cmp_total(x[0], y[0], z[0]);
        lemma_arr_cmp_total(x.drop_first(), y.drop_first(), z.drop_first());
    } else if x.len() > 0 && y.len() > 0 {
        lemma_val_cmp_total(x[0], y[0], y[0]);
        lemma_arr_cmp_total(x.drop_first(), y.drop_first(), z);
    }
}

pub proof fn lemma_pairs_cmp_total(
    x: Seq<(Seq<char>, SpecVal)>,
    y: Seq<(Seq<char>, SpecVal)>,
    z: Seq<(Seq<char>, SpecVal)>,
)
    ensures
        spec_cmp_laws(
            spec_pairs_cmp(x, y),
            spec_pairs_cmp(y, x),
            spec_pairs_cmp(y, z),
            spec_pairs_cmp(x, z),
        ),
    decreases x,
{
    if x.len() > 0 && y.len() > 0 && z.len() > 0 {
        lemma_chars_cmp_total(x[0].0, y[0].0, z[0].0);
        lemma_val_cmp_total(x[0].1, y[0].1, z[0].1);
        lemma_pairs_cmp_total(x.drop_first(), y.drop_first(), z.drop_first());
    } else if x.len() > 0 && y.len() > 0 {
        lemma_chars_cmp_total(x[0].0, y[0].0, y[0].0);
        lemma_val_cmp_total(x[0].1, y[0].1, y[0].1);
        lemma_pairs_cmp_total(x.drop_first(), y.drop_first(), z);
    }
}


/// The value a segmented field path addresses: each leading segment must
/// name a nested document, and the last segment names the field. An empty
/// path addresses nothing.
pub open spec fn spec_get_path(d: Seq<(Seq<char>, SpecVal)>, path: Seq<Seq<char>>) -> Option<
    SpecVal,
>
    decreases path.len(),
{
    if path.len() == 0 {
        None
    } else if path.len() == 1 {
        spec_get(d, path[0])
    } else {
        match spec_get(d, path[0]) {
            Some(SpecVal::Doc(inner)) => spec_get_path(inner, path.drop_first()),
            _ => None,
        }
    }
}

impl Document {
    /// The value under a segmented field path, walking nested documents.
    pub fn get_path<'a>(&'a self, path: &Vec<String>) -> (r: Option<&'a Value>)
        ensures
            match r {
                Some(v) => spec_get_path(self@, path@.map(|i: int, s: String| s@)) == Some(v@),
                None => spec_get_path(self@, path@.map(|i: int, s: String| s@)) is None,
            },
    {
        let n = path.len();
        if n == 0 {
            return None;
        }
        let mut cur: &Document = self;
        let mut i: usize = 0;
        proof {
            assert(path@.map(|t: int, s: String| s@).skip(0) =~= path@.map(
                |t: int, s: String| s@,
            ));
        }
        loop
            invariant
                n == path@.len(),
                n > 0,
                0 <= i < n,
                spec_get_path(self@, path@.map(|t: int, s: String| s@)) == spec_get_path(
                    cur@,
                    path@.map(|t: int, s: String| s@).skip(i as int),
                ),
            decreases n - i,
        {
            let ghost segs = path@.map(|t: int, s: String| s@);
            let ghost rest = segs.skip(i as int);
            proof {
                assert(rest[0] == segs[i as int]);
            }
            if i + 1 == n {
                assert(rest.len() == 1);
                return cur.get(path[i].as_str());
            }
            proof {
                assert(rest.drop_first() =~= segs.skip(i + 1));
            }
            match cur.get(path[i].as_str()) {
                Some(Value::Doc(inner)) => {
                    cur = inner;
                },
                Some(_) => {
                    return None;
                },
                None => {
                    return None;
                },
            }
            i += 1;
        }
    }
}


/// The tag of a value, for declaring what shape a typed field expects.
#[derive(Clone, Copy, PartialEq, Eq, Structural, Debug)]
pub enum TypeTag {
    Null,
    Bool,
    Int32,
    Int64,
    Double,
    Str,
    DateTime,
    Binary,
    ObjectId,
    Array,
    Doc,
}

pub open spec fn spec_tag_of(v: SpecVal) -> TypeTag {
    match v {
        SpecVal::Null => TypeTag::Null,
        SpecVal::Bool(_) => TypeTag::Bool,
        SpecVal::Int32(_) => TypeTag::Int32,
        SpecVal::Int64(_) => TypeTag::Int64,
        SpecVal::Double(_) => TypeTag::Double,
        SpecVal::Str(_) => TypeTag::Str,
        SpecVal::DateTime(_) => TypeTag::DateTime,
        SpecVal::Binary(_) => TypeTag::Binary,
        SpecVal::ObjectId(_) => TypeTag::ObjectId,
        SpecVal::Array(_) => TypeTag::Array,
        SpecVal::Doc(_) => TypeTag::Doc,
    }
}

impl Value {
    /// The tag of this value.
    pub fn tag_of(&self) -> (r: TypeTag)
        ensures
            r == spec_tag_of(self@),
    {
        match self {
            Value::Null => TypeTag::Null,
            Value::Bool(_) => TypeTag::Bool,
            Value::Int32(_) => TypeTag::Int32,
            Value::Int64(_) => TypeTag::Int64,
            Value::Double(_) => TypeTag::Double,
            Value::Str(_) => TypeTag::Str,
            Value::DateTime(_) => TypeTag::DateTime,
            Value::Binary(_) => TypeTag::Binary,
            Value::ObjectId(_) => TypeTag::ObjectId,
            Value::Array(_) => TypeTag::Array,
            Value::Doc(_) => TypeTag::Doc,
        }
    }
}


/// Index of the first dot in a key, or its length when it has none.
pub open spec fn spec_dot_idx(s: Seq<char>) -> int
    decreases s,
{
    if s.len() == 0 {
        0
    } else if s[0] == '.' {
        0
    } else {
        1 + spec_dot_idx(s.drop_first())
    }
}

pub broadcast proof fn lemma_dot_idx(s: Seq<char>)
    ensures
        0 <= #[trigger] spec_dot_idx(s) <= s.len(),
        spec_dot_idx(s) < s.len() ==> s[spec_dot_idx(s)] == '.',
        forall|j: int| 0 <= j < spec_dot_idx(s) ==> s[j] != '.',
    decreases s,
{
    if s.len() > 0 && s[0] != '.' {
        lemma_dot_idx(s.drop_first());
        assert forall|j: int| 0 <= j < spec_dot_idx(s) implies s[j] != '.' by {
            if j > 0 {
                assert(s.drop_first()[j - 1] == s[j]);
            }
        }
    }
}

/// A key read as a field path: its dot-separated segments.
pub open spec fn spec_split_dots(s: Seq<char>) -> Seq<Seq<char>>
    decreases s.len(),
    via spec_split_dots_dec
{
    if spec_dot_idx(s) == s.len() {
        seq![s]
    } else {
        seq![s.take(spec_dot_idx(s))] + spec_split_dots(s.skip(spec_dot_idx(s) + 1))
    }
}

#[via_fn]
proof fn spec_split_dots_dec(s: Seq<char>) {
    lemma_dot_idx(s);
}

/// A key without a dot is one whole segment.
pub proof fn lemma_split_dots_whole(s: Seq<char>)
    requires
        forall|j: int| 0 <= j < s.len() ==> s[j] != '.',
    ensures
        spec_split_dots(s) == seq![s],
{
    lemma_dot_idx(s);
    if spec_dot_idx(s) < s.len() {
        assert(s[spec_dot_idx(s)] == '.');
        assert(false);
    }
}

/// The character sequences of a list of strings.
pub open spec fn strs_view(v: Seq<String>) -> Seq<Seq<char>> {
    v.map(|i: int, s: String| s@)
}

/// Split a key into its dot-separated path segments.
pub fn split_dots(key: &str) -> (r: Vec<String>)
    ensures
        strs_view(r@) == spec_split_dots(key@),
{
    let n = key.unicode_len();
    let mut out: Vec<String> = Vec::new();
    proof {
        assert(key@.skip(0) =~= key@);
        assert(strs_view(out@) =~= Seq::<Seq<char>>::empty());
    }
    let mut start: usize = 0;
    let mut i: usize = 0;
    while i < n
        invariant
            n == key@.len(),
            0 <= start <= i <= n,
            forall|j: int| start <= j < i ==> key@[j] != '.',
            spec_split_dots(key@) == strs_view(out@) + spec_split_dots(
                key@.skip(start as int),
            ),
        decreases n - i,
    {
        let c = key.get_char(i);
        if c as u32 == '.' as u32 {
            let ghost rest = key@.skip(start as int);
            proof {
                lemma_dot_idx(rest);
                let d = spec_dot_idx(rest);
                assert(rest[i - start] == key@[i as int]);
                assert forall|j: int| 0 <= j < i - start implies rest[j] != '.' by {
                    assert(rest[j] == key@[j + start]);
                }
                if d < i - start {
                    assert(rest[d] == key@[d + start]);
                    assert(false);
                }
                if d > i - start {
                    assert(rest[i - start] != '.');
                    assert(false);
                }
                assert(rest.take(i - start) =~= key@.subrange(start as int, i as int));
                assert(rest.skip(i - start + 1) =~= key@.skip(i + 1));
            }
            let seg = key.substring_char(start, i);
            let ghost out_pre = out@;
            out.push(String::from_str(seg));
            proof {
                assert(strs_view(out@) =~= strs_view(out_pre).push(
                    key@.subrange(start as int, i as int),
                ));
            }
            start = i + 1;
        }
        i += 1;
    }
    let ghost rest = key@.skip(start as int);
    proof {
        assert forall|j: int| 0 <= j < rest.len() implies rest[j] != '.' by {
            assert(rest[j] == key@[j + start]);
        }
        lemma_split_dots_whole(rest);
        assert(rest =~= key@.subrange(start as int, n as int));
    }
    let seg = key.substring_char(start, n);
    let ghost out_pre = out@;
    out.push(String::from_str(seg));
    proof {
        assert(strs_view(out@) =~= strs_view(out_pre).push(rest));
    }
    out
}

} // verus!
