//! JSON values.

use vstd::prelude::*;
use crate::text::same_text;

verus! {

/// A JSON value. Doubles are carried as their bit patterns.
#[derive(Debug)]
pub enum Json {
    Null,
    Bool(bool),
    Int(i64),
    UInt(u64),
    /// A finite double.
    Double(u64),
    /// Microseconds, shown as a number of seconds.
    Seconds(i64),
    /// A double, shown as a string.
    DoubleText(u64),
    Text(String),
    Array(Vec<Json>),
    /// Fields, no name twice.
    Object(Vec<(String, Json)>),
}

/// The view of a `Json`.
#[verifier::ext_equal]
pub enum JsonView {
    Null,
    Bool(bool),
    Int(i64),
    UInt(u64),
    Double(u64),
    Seconds(i64),
    DoubleText(u64),
    Text(Seq<char>),
    Array(Seq<JsonView>),
    Object(Seq<(Seq<char>, JsonView)>),
}

/// The fields of a JSON object.
pub type Fields = Seq<(Seq<char>, JsonView)>;

impl Json {
    /// The view of a value.
    pub open spec fn view(self) -> JsonView
        decreases self,
    {
        match self {
            Json::Null => JsonView::Null,
            Json::Bool(b) => JsonView::Bool(b),
            Json::Int(n) => JsonView::Int(n),
            Json::UInt(n) => JsonView::UInt(n),
            Json::Double(bits) => JsonView::Double(bits),
            Json::Seconds(us) => JsonView::Seconds(us),
            Json::DoubleText(bits) => JsonView::DoubleText(bits),
            Json::Text(s) => JsonView::Text(s@),
            Json::Array(v) => JsonView::Array(json_views(v@)),
            Json::Object(v) => JsonView::Object(field_views(v@)),
        }
    }
}

/// The views of a list of values.
pub open spec fn json_views(s: Seq<Json>) -> Seq<JsonView>
    decreases s,
{
    if s.len() == 0 {
        Seq::empty()
    } else {
        json_views(s.drop_last()).push(s.last().view())
    }
}

/// The views of a list of fields.
pub open spec fn field_views(s: Seq<(String, Json)>) -> Fields
    decreases s,
{
    if s.len() == 0 {
        Seq::empty()
    } else {
        field_views(s.drop_last()).push((s.last().0@, s.last().1.view()))
    }
}

/// The views of a list stand where its values do.
pub proof fn lemma_json_views(s: Seq<Json>)
    ensures
        json_views(s).len() == s.len(),
        forall|i: int| 0 <= i < s.len() ==> #[trigger] json_views(s)[i] == s[i].view(),
    decreases s.len(),
{
    if s.len() > 0 {
        lemma_json_views(s.drop_last());
    }
}

/// The views of fields stand where the fields do.
pub proof fn lemma_field_views(s: Seq<(String, Json)>)
    ensures
        field_views(s).len() == s.len(),
        forall|i: int|
            0 <= i < s.len() ==> #[trigger] field_views(s)[i] == (s[i].0@, s[i].1.view()),
    decreases s.len(),
{
    if s.len() > 0 {
        lemma_field_views(s.drop_last());
    }
}

/// The fields with one set: in place of the value it had, or at the end.
pub open spec fn put(fields: Fields, name: Seq<char>, value: JsonView) -> Fields
    decreases fields.len(),
{
    if fields.len() == 0 {
        seq![(name, value)]
    } else if fields[0].0 == name {
        seq![(name, value)] + fields.skip(1)
    } else {
        seq![fields[0]] + put(fields.skip(1), name, value)
    }
}

proof fn lemma_put_at(fields: Fields, name: Seq<char>, value: JsonView, i: int)
    requires
        0 <= i <= fields.len(),
        forall|j: int| 0 <= j < i ==> (#[trigger] fields[j]).0 != name,
        i < fields.len() ==> fields[i].0 == name,
    ensures
        put(fields, name, value) == if i < fields.len() {
            fields.update(i, (name, value))
        } else {
            fields.push((name, value))
        },
    decreases fields.len(),
{
    if fields.len() == 0 {
        assert(put(fields, name, value) =~= fields.push((name, value)));
    } else if i == 0 {
        assert(put(fields, name, value) =~= fields.update(0, (name, value)));
    } else {
        let rest = fields.skip(1);
        assert forall|j: int| 0 <= j < i - 1 implies (#[trigger] rest[j]).0 != name by {
            assert(rest[j] == fields[j + 1]);
        }
        lemma_put_at(rest, name, value, i - 1);
        if i < fields.len() {
            assert(put(fields, name, value) =~= fields.update(i, (name, value)));
        } else {
            assert(put(fields, name, value) =~= fields.push((name, value)));
        }
    }
}

/// Set a field: in place of the value it had, or at the end.
pub fn put_field(fields: &mut Vec<(String, Json)>, name: String, value: Json)
    ensures
        field_views(final(fields)@) == put(field_views(old(fields)@), name@, value.view()),
{
    let ghost before = fields@;
    let ghost views = field_views(before);
    let ghost n = name@;
    let ghost v = value.view();
    proof {
        lemma_field_views(before);
    }
    let mut i: usize = 0;
    while i < fields.len() && !same_text(fields[i].0.as_str(), name.as_str())
        invariant
            fields@ == before,
            views == field_views(before),
            views.len() == before.len(),
            forall|j: int|
                0 <= j < before.len() ==> #[trigger] views[j] == (
                    before[j].0@,
                    before[j].1.view(),
                ),
            n == name@,
            i <= fields@.len(),
            forall|j: int| 0 <= j < i ==> (#[trigger] views[j]).0 != n,
        decreases fields@.len() - i,
    {
        assert(views[i as int].0 != n);
        i += 1;
    }
    proof {
        if i < before.len() {
            assert(views[i as int].0 == n);
        }
        lemma_put_at(views, n, v, i as int);
    }
    if i < fields.len() {
        fields[i] = (name, value);
        proof {
            lemma_field_views(fields@);
            assert(field_views(fields@) =~= views.update(i as int, (n, v)));
        }
    } else {
        fields.push((name, value));
        proof {
            lemma_field_views(fields@);
            assert(field_views(fields@) =~= views.push((n, v)));
        }
    }
}

/// Whether no field's name occurs twice.
pub open spec fn distinct_fields(fields: Fields) -> bool {
    forall|i: int, j: int|
        0 <= i < j < fields.len() ==> (#[trigger] fields[i]).0 != (#[trigger] fields[j]).0
}

/// Setting a field leaves every name at most once.
pub proof fn law_put_keeps_names_distinct(fields: Fields, name: Seq<char>, value: JsonView)
    requires
        distinct_fields(fields),
    ensures
        distinct_fields(put(fields, name, value)),
{
    let at = first_named(fields, name);
    lemma_first_named(fields, name);
    lemma_put_at(fields, name, value, at);
}

/// Where a name first stands; the length where it does not.
spec fn first_named(fields: Fields, name: Seq<char>) -> int
    decreases fields.len(),
{
    if fields.len() == 0 || fields[0].0 == name {
        0
    } else {
        1 + first_named(fields.skip(1), name)
    }
}

proof fn lemma_first_named(fields: Fields, name: Seq<char>)
    ensures
        0 <= first_named(fields, name) <= fields.len(),
        forall|j: int| 0 <= j < first_named(fields, name) ==> (#[trigger] fields[j]).0 != name,
        first_named(fields, name) < fields.len() ==> fields[first_named(fields, name)].0 == name,
    decreases fields.len(),
{
    if fields.len() > 0 && fields[0].0 != name {
        let rest = fields.skip(1);
        lemma_first_named(rest, name);
        assert forall|j: int| 0 <= j < first_named(fields, name) implies (#[trigger] fields[j]).0
            != name by {
            if j > 0 {
                assert(rest[j - 1] == fields[j]);
            }
        }
    }
}

} // verus!
