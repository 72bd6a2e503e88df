use vstd::prelude::*;

use crate::store::{DocModel, Error};
use crate::value::{spec_get, spec_tag_of, Document, SpecVal, TypeTag, Value};

verus! {

broadcast use {
    vstd::std_specs::vec::group_vec_axioms,
    vstd::seq::group_seq_axioms,
    vstd::seq_lib::group_seq_lib_default,
    crate::value::lemma_arr_view,
};

/// One viewer comment on a movie.
pub struct Comment {
    pub email: String,
    pub name: String,
    pub text: String,
}

/// The model of a comment: its three text fields.
pub open spec fn comment_model(c: Comment) -> (Seq<char>, Seq<char>, Seq<char>) {
    (c.email@, c.name@, c.text@)
}

/// Whether a document holds a string under the key.
pub open spec fn spec_str_field(d: DocModel, key: Seq<char>) -> bool {
    spec_get(d, key) is Some && spec_get(d, key)->Some_0 is Str
}

impl Comment {
    /// Read a comment from a document: the three fields must be strings.
    pub fn from_document(d: &Document) -> (r: Result<Comment, Error>)
        ensures
            match r {
                Ok(c) => spec_str_field(d@, "email"@) && spec_str_field(d@, "name"@)
                    && spec_str_field(d@, "text"@) && c.email@ == spec_get(d@, "email"@)->Some_0->Str_0
                    && c.name@ == spec_get(d@, "name"@)->Some_0->Str_0 && c.text@ == spec_get(
                    d@,
                    "text"@,
                )->Some_0->Str_0,
                Err(e) => ({
                    let bad = if !spec_str_field(d@, "email"@) {
                        "email"@
                    } else if !spec_str_field(d@, "name"@) {
                        "name"@
                    } else {
                        "text"@
                    };
                    &&& !(spec_str_field(d@, "email"@) && spec_str_field(d@, "name"@)
                        && spec_str_field(d@, "text"@))
                    &&& spec_get(d@, bad) is Some ==> e is TypeMismatch
                        && e->TypeMismatch_0@ == bad && e->TypeMismatch_1 == TypeTag::Str
                        && e->TypeMismatch_2 == spec_tag_of(spec_get(d@, bad)->Some_0)
                    &&& spec_get(d@, bad) is None ==> e is MissingField
                        && e->MissingField_0@ == bad
                }),
            },
    {
        let email = match d.get("email") {
            Some(Value::Str(s)) => s.clone(),
            Some(other) => {
                return Err(Error::TypeMismatch(
                    String::from_str("email"),
                    TypeTag::Str,
                    other.tag_of(),
                ));
            },
            None => {
                return Err(Error::MissingField(String::from_str("email")));
            },
        };
        let name = match d.get("name") {
            Some(Value::Str(s)) => s.clone(),
            Some(other) => {
                return Err(Error::TypeMismatch(
                    String::from_str("name"),
                    TypeTag::Str,
                    other.tag_of(),
                ));
            },
            None => {
                return Err(Error::MissingField(String::from_str("name")));
            },
        };
        let text = match d.get("text") {
            Some(Value::Str(s)) => s.clone(),
            Some(other) => {
                return Err(Error::TypeMismatch(
                    String::from_str("text"),
                    TypeTag::Str,
                    other.tag_of(),
                ));
            },
            None => {
                return Err(Error::MissingField(String::from_str("text")));
            },
        };
        Ok(Comment { email, name, text })
    }
}

/// A movie as the aggregation examples read one back: its title, cast,
/// year, and any comments attached by a pipeline.
pub struct MovieSummary {
    pub title: String,
    pub cast: Vec<String>,
    pub year: i32,
    pub comments: Vec<Comment>,
}

/// The decimal digit character of one value below ten.
pub open spec fn spec_digit(n: int) -> char
    recommends
        0 <= n < 10,
{
    ((48 + n) as u8) as char
}

/// The decimal digits of a number, most significant first.
pub open spec fn spec_dec_digits(n: int) -> Seq<char>
    recommends
        n >= 0,
    decreases n,
{
    if n < 10 {
        seq![spec_digit(n)]
    } else {
        spec_dec_digits(n / 10).push(spec_digit(n % 10))
    }
}

/// The decimal rendering of a signed number.
pub open spec fn spec_i64_str(n: int) -> Seq<char> {
    if n < 0 {
        seq!['-'] + spec_dec_digits(-n)
    } else {
        spec_dec_digits(n)
    }
}

/// One decimal digit as text.
fn digit_str(d: u32) -> (r: &'static str)
    requires
        d < 10,
    ensures
        r@ == seq![spec_digit(d as int)],
{
    proof {
        reveal_strlit("0");
        reveal_strlit("1");
        reveal_strlit("2");
        reveal_strlit("3");
        reveal_strlit("4");
        reveal_strlit("5");
        reveal_strlit("6");
        reveal_strlit("7");
        reveal_strlit("8");
        reveal_strlit("9");
    }
    match d {
        0 => "0",
        1 => "1",
        2 => "2",
        3 => "3",
        4 => "4",
        5 => "5",
        6 => "6",
        7 => "7",
        8 => "8",
        _ => {
            assert(d == 9);
            "9"
        },
    }
}

/// The decimal digits of an unsigned number.
fn u32_digits(m: u32) -> (r: String)
    ensures
        r@ == spec_dec_digits(m as int),
    decreases m,
{
    if m < 10 {
        String::from_str(digit_str(m))
    } else {
        let high = u32_digits(m / 10);
        let low = digit_str(m % 10);
        let out = high.concat(low);
        proof {
            assert(out@ =~= spec_dec_digits(m as int / 10).push(spec_digit(m as int % 10)));
        }
        out
    }
}

/// The decimal rendering of a signed number.
pub fn i32_to_string(n: i32) -> (r: String)
    ensures
        r@ == spec_i64_str(n as int),
{
    proof {
        reveal_strlit("-");
    }
    if n < 0 {
        let m: u32 = (-(n as i64)) as u32;
        let digits = u32_digits(m);
        let out = String::from_str("-").concat(digits.as_str());
        proof {
            assert(out@ =~= seq!['-'] + spec_dec_digits(m as int));
        }
        out
    } else {
        u32_digits(n as u32)
    }
}

/// The cast member shown when a movie has none.
pub open spec fn spec_no_cast() -> Seq<char> {
    "- no cast -"@
}

impl MovieSummary {
    /// The one-line rendering of this movie: its title, its first cast
    /// member or a placeholder, and its year, comma separated.
    pub fn summary_line(&self) -> (r: String)
        ensures
            r@ == self.title@ + ", "@ + (if self.cast@.len() > 0 {
                self.cast@[0]@
            } else {
                spec_no_cast()
            }) + ", "@ + spec_i64_str(self.year as int),
    {
        let mut out = self.title.clone();
        out.append(", ");
        if self.cast.len() > 0 {
            out.append(self.cast[0].as_str());
        } else {
            out.append("- no cast -");
        }
        out.append(", ");
        let year = i32_to_string(self.year);
        out.append(year.as_str());
        out
    }
}

} // verus!
