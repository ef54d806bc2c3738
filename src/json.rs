//! The fields of a flat JSON object, as the link codecs read them.
use vstd::prelude::*;

verus! {

/// One field of a JSON object: its key, its value where that is a string, and its value
/// where that is a non-negative integer.
#[derive(Debug, Clone)]
pub struct JsonField {
    pub key: String,
    pub text: Option<String>,
    pub number: Option<u64>,
}

pub type FieldView = (Seq<char>, Option<Seq<char>>, Option<u64>);

impl View for JsonField {
    type V = FieldView;

    open spec fn view(&self) -> FieldView {
        (self.key@, crate::protocol::link::opt_str(self.text), self.number)
    }
}

pub open spec fn field_views(f: Seq<JsonField>) -> Seq<FieldView> {
    f.map_values(|x: JsonField| x@)
}

/// The fields of the JSON object that `text` holds (none where it holds another JSON
/// value), or nothing where `text` is not JSON.
pub uninterp spec fn json_object_fields(text: Seq<char>) -> Option<Seq<FieldView>>;

/// Relies on `serde_json::from_str::<Value>`, with `Value::as_str` and `Value::as_u64` on
/// each member of an object.
#[verifier::external_body]
pub fn parse_json_object(text: &str) -> (r: Option<Vec<JsonField>>)
    ensures
        match r {
            Some(f) => json_object_fields(text@) == Some(field_views(f@)),
            None => json_object_fields(text@) is None,
        },
{
    let value: serde_json::Value = serde_json::from_str(text).ok()?;
    let mut out = Vec::new();
    if let serde_json::Value::Object(members) = value {
        for (key, v) in members {
            out.push(JsonField { text: v.as_str().map(String::from), number: v.as_u64(), key });
        }
    }
    Some(out)
}

/// The last field named `key`.
pub open spec fn field_lookup(f: Seq<FieldView>, key: Seq<char>) -> Option<FieldView>
    decreases f.len(),
{
    if f.len() == 0 {
        None
    } else if f.last().0 == key {
        Some(f.last())
    } else {
        field_lookup(f.drop_last(), key)
    }
}

/// The string value of the field `key`.
pub open spec fn text_of(f: Seq<FieldView>, key: Seq<char>) -> Option<Seq<char>> {
    match field_lookup(f, key) {
        Some(x) => x.1,
        None => None,
    }
}

/// The integer value of the field `key`.
pub open spec fn number_of(f: Seq<FieldView>, key: Seq<char>) -> Option<u64> {
    match field_lookup(f, key) {
        Some(x) => x.2,
        None => None,
    }
}

pub fn find_field<'a>(f: &'a Vec<JsonField>, key: &str) -> (r: Option<&'a JsonField>)
    ensures
        match r {
            Some(x) => field_lookup(field_views(f@), key@) == Some(x@),
            None => field_lookup(field_views(f@), key@) is None,
        },
{
    let k = crate::text::chars_of(key);
    let mut i: usize = f.len();
    assert(field_views(f@).subrange(0, f.len() as int) =~= field_views(f@));
    while i > 0
        invariant
            i <= f.len(),
            k@ == key@,
            field_lookup(field_views(f@), key@) == field_lookup(
                field_views(f@).subrange(0, i as int),
                key@,
            ),
        decreases i,
    {
        let ghost s = field_views(f@).subrange(0, i as int);
        assert(s.drop_last() =~= field_views(f@).subrange(0, i - 1));
        assert(s.last() == f@[i - 1]@);
        if crate::text::eq_chars(&crate::text::chars_of(f[i - 1].key.as_str()), &k) {
            return Some(&f[i - 1]);
        }
        i = i - 1;
    }
    None
}

pub fn field_text(f: &Vec<JsonField>, key: &str) -> (r: Option<Vec<char>>)
    ensures
        crate::protocol::link::opt_view(r) == text_of(field_views(f@), key@),
{
    match find_field(f, key) {
        Some(x) => match &x.text {
            Some(t) => Some(crate::text::chars_of(t.as_str())),
            None => None,
        },
        None => None,
    }
}

pub fn field_number(f: &Vec<JsonField>, key: &str) -> (r: Option<u64>)
    ensures
        r == number_of(field_views(f@), key@),
{
    match find_field(f, key) {
        Some(x) => x.number,
        None => None,
    }
}

} // verus!
