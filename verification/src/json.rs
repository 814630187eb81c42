//! JSON values and their compact text, with object keys in order.
use crate::ordered::{self, held, increasing, insert_entry};
use crate::text;
use vstd::prelude::*;

verus! {

/// A JSON value. A number is held as the text it is written as.
#[derive(Debug, PartialEq)]
pub enum Json {
    Null,
    Bool(bool),
    Number(String),
    Text(String),
    Array(Vec<Json>),
    Object(Vec<(String, Json)>),
}

/// A JSON value as contracts see it.
pub enum JsonModel {
    Null,
    Bool(bool),
    Number(Seq<char>),
    Text(Seq<char>),
    Array(Seq<JsonModel>),
    Object(Seq<(Seq<char>, JsonModel)>),
}

/// The values of a list.
pub open spec fn models(items: Seq<Json>) -> Seq<JsonModel>
    decreases items,
{
    if items.len() == 0 {
        Seq::empty()
    } else {
        models(items.drop_last()).push(items.last().model())
    }
}

/// The fields of an object.
pub open spec fn field_models(fields: Seq<(String, Json)>) -> Seq<(Seq<char>, JsonModel)>
    decreases fields,
{
    if fields.len() == 0 {
        Seq::empty()
    } else {
        field_models(fields.drop_last()).push((fields.last().0@, fields.last().1.model()))
    }
}

impl Json {
    pub open spec fn model(self) -> JsonModel
        decreases self,
    {
        match self {
            Json::Null => JsonModel::Null,
            Json::Bool(b) => JsonModel::Bool(b),
            Json::Number(t) => JsonModel::Number(t@),
            Json::Text(t) => JsonModel::Text(t@),
            Json::Array(v) => JsonModel::Array(models(v@)),
            Json::Object(v) => JsonModel::Object(field_models(v@)),
        }
    }
}

impl View for Json {
    type V = JsonModel;

    open spec fn view(&self) -> JsonModel {
        self.model()
    }
}

/// A hexadecimal digit.
pub open spec fn hex(d: nat) -> char {
    if d < 10 {
        (48 + d) as char
    } else {
        (87 + d) as char
    }
}

/// A character as it is written inside a JSON string.
pub open spec fn escaped(c: char) -> Seq<char> {
    let n = c as nat;
    if c == '"' {
        seq!['\\', '"']
    } else if c == '\\' {
        seq!['\\', '\\']
    } else if n == 8 {
        seq!['\\', 'b']
    } else if n == 9 {
        seq!['\\', 't']
    } else if n == 10 {
        seq!['\\', 'n']
    } else if n == 12 {
        seq!['\\', 'f']
    } else if n == 13 {
        seq!['\\', 'r']
    } else if n < 32 {
        seq!['\\', 'u', '0', '0', hex(n / 16), hex(n % 16)]
    } else {
        seq![c]
    }
}

/// The inside of a JSON string.
pub open spec fn escapes(s: Seq<char>) -> Seq<char>
    decreases s.len(),
{
    if s.len() == 0 {
        s
    } else {
        escapes(s.drop_last()) + escaped(s.last())
    }
}

/// A JSON string.
pub open spec fn quoted(s: Seq<char>) -> Seq<char> {
    seq!['"'] + escapes(s) + seq!['"']
}

/// `serde_json::to_string` on a string: the text in quotes, with the quote,
/// the backslash and the control characters below the space escaped.
#[verifier::external_body]
pub(crate) fn quote(s: &str) -> (r: String)
    ensures
        r@ == quoted(s@),
{
    serde_json::to_string(s).expect("a string serializes")
}

/// Items one after the other, a comma between each two.
pub open spec fn items_text(items: Seq<JsonModel>) -> Seq<char>
    decreases items,
{
    if items.len() == 0 {
        Seq::empty()
    } else if items.len() == 1 {
        items.last().text()
    } else {
        items_text(items.drop_last()) + seq![','] + items.last().text()
    }
}

/// Fields one after the other, a comma between each two.
pub open spec fn fields_text(fields: Seq<(Seq<char>, JsonModel)>) -> Seq<char>
    decreases fields,
{
    if fields.len() == 0 {
        Seq::empty()
    } else {
        let last = quoted(fields.last().0) + seq![':'] + fields.last().1.text();
        if fields.len() == 1 {
            last
        } else {
            fields_text(fields.drop_last()) + seq![','] + last
        }
    }
}

impl JsonModel {
    /// The compact text of a value, fields in the order in which they stand.
    pub open spec fn text(self) -> Seq<char>
        decreases self,
    {
        match self {
            JsonModel::Null => "null"@,
            JsonModel::Bool(b) => if b {
                "true"@
            } else {
                "false"@
            },
            JsonModel::Number(t) => t,
            JsonModel::Text(t) => quoted(t),
            JsonModel::Array(items) => seq!['['] + items_text(items) + seq![']'],
            JsonModel::Object(fields) => seq!['{'] + fields_text(fields) + seq!['}'],
        }
    }
}

impl Json {
    /// Writes the compact text of a value.
    pub fn to_text(&self) -> (r: String)
        ensures
            r@ == self@.text(),
        decreases *self,
    {
        match self {
            Json::Null => "null".to_owned(),
            Json::Bool(b) => if *b {
                "true".to_owned()
            } else {
                "false".to_owned()
            },
            Json::Number(t) => t.clone(),
            Json::Text(t) => quote(t.as_str()),
            Json::Array(items) => {
                let mut out: String = String::new();
                out.push('[');
                let mut i: usize = 0;
                assert(items@.take(0) =~= Seq::<Json>::empty());
                assert(out@ =~= seq!['['] + items_text(models(items@.take(0))));
                while i < items.len()
                    invariant
                        i <= items@.len(),
                        *self == Json::Array(*items),
                        out@ == seq!['['] + items_text(models(items@.take(i as int))),
                        models(items@.take(i as int)).len() == i,
                    decreases items@.len() - i,
                {
                    proof {
                        assert(items@.take(i + 1).drop_last() =~= items@.take(i as int));
                        assert(items@.take(i + 1).last() == items@[i as int]);
                        assert(models(items@.take(i + 1)).drop_last() =~= models(
                            items@.take(i as int),
                        ));
                    }
                    if i > 0 {
                        out.push(',');
                    }
                    let item: &Json = &items[i];
                    proof {
                        assert(decreases_to!(*self => self->Array_0));
                        assert(decreases_to!(self->Array_0 => items@));
                        assert(decreases_to!(items@ => items@[i as int]));
                    }
                    let t: String = item.to_text();
                    out.append(t.as_str());
                    i = i + 1;
                    assert(out@ =~= seq!['['] + items_text(models(items@.take(i as int))));
                }
                assert(items@.take(i as int) =~= items@);
                out.push(']');
                assert(out@ =~= self@.text());
                out
            },
            Json::Object(fields) => {
                let mut out: String = String::new();
                out.push('{');
                let mut i: usize = 0;
                assert(fields@.take(0) =~= Seq::<(String, Json)>::empty());
                assert(out@ =~= seq!['{'] + fields_text(field_models(fields@.take(0))));
                while i < fields.len()
                    invariant
                        i <= fields@.len(),
                        *self == Json::Object(*fields),
                        out@ == seq!['{'] + fields_text(field_models(fields@.take(i as int))),
                        field_models(fields@.take(i as int)).len() == i,
                    decreases fields@.len() - i,
                {
                    proof {
                        assert(fields@.take(i + 1).drop_last() =~= fields@.take(i as int));
                        assert(fields@.take(i + 1).last() == fields@[i as int]);
                        assert(field_models(fields@.take(i + 1)).drop_last() =~= field_models(
                            fields@.take(i as int),
                        ));
                    }
                    if i > 0 {
                        out.push(',');
                    }
                    let k: String = quote(fields[i].0.as_str());
                    out.append(k.as_str());
                    out.push(':');
                    let item: &Json = &fields[i].1;
                    proof {
                        assert(decreases_to!(*self => self->Object_0));
                        assert(decreases_to!(self->Object_0 => fields@));
                        assert(decreases_to!(fields@ => fields@[i as int]));
                        assert(decreases_to!(fields@[i as int] => fields@[i as int].1));
                    }
                    let t: String = item.to_text();
                    out.append(t.as_str());
                    i = i + 1;
                    assert(out@ =~= seq!['{'] + fields_text(field_models(fields@.take(i as int))));
                }
                assert(fields@.take(i as int) =~= fields@);
                out.push('}');
                assert(out@ =~= self@.text());
                out
            },
        }
    }
}

/// The values of a list, each with its keys in order.
pub open spec fn ordered_items(items: Seq<JsonModel>) -> Seq<JsonModel>
    decreases items,
{
    if items.len() == 0 {
        items
    } else {
        ordered_items(items.drop_last()).push(items.last().ordered())
    }
}

/// Fields in order of their keys; of several with one key, the last.
pub open spec fn ordered_fields(fields: Seq<(Seq<char>, JsonModel)>) -> Seq<(Seq<char>, JsonModel)>
    decreases fields,
{
    if fields.len() == 0 {
        fields
    } else {
        insert_entry(
            ordered_fields(fields.drop_last()),
            fields.last().0,
            fields.last().1.ordered(),
        )
    }
}

impl JsonModel {
    /// The value with the keys of every object in it in order.
    pub open spec fn ordered(self) -> JsonModel
        decreases self,
    {
        match self {
            JsonModel::Array(items) => JsonModel::Array(ordered_items(items)),
            JsonModel::Object(fields) => JsonModel::Object(ordered_fields(fields)),
            other => other,
        }
    }
}

proof fn lemma_field_models(fields: Seq<(String, Json)>)
    ensures
        field_models(fields).len() == fields.len(),
        forall|i: int|
            0 <= i < fields.len() ==> #[trigger] field_models(fields)[i] == (
                fields[i].0@,
                fields[i].1@,
            ),
    decreases fields.len(),
{
    if fields.len() > 0 {
        lemma_field_models(fields.drop_last());
    }
}

/// Adds a field at the end of an object.
pub fn push_field(out: &mut Vec<(String, Json)>, key: &str, value: Json)
    ensures
        field_models(final(out)@) == field_models(old(out)@).push((key@, value@)),
{
    let ghost before = out@;
    out.push((key.to_owned(), value));
    assert(out@.drop_last() =~= before);
}

/// Adds a text field at the end of an object.
pub fn push_text(out: &mut Vec<(String, Json)>, key: &str, value: &str)
    ensures
        field_models(final(out)@) == field_models(old(out)@).push((key@, JsonModel::Text(value@))),
{
    push_field(out, key, Json::Text(value.to_owned()));
}

fn put_field(out: &mut Vec<(String, Json)>, key: String, value: Json)
    ensures
        field_models(final(out)@) == insert_entry(field_models(old(out)@), key@, value@),
{
    let ghost before = out@;
    let ghost f = |v: Json| v@;
    proof {
        lemma_field_models(before);
        assert(field_models(before) =~= ordered::mapped(ordered::entries_of(before), f));
        ordered::lemma_insert_mapped(ordered::entries_of(before), key@, value, f);
    }
    ordered::put(out, key, value);
    proof {
        lemma_field_models(out@);
        assert(field_models(out@) =~= ordered::mapped(ordered::entries_of(out@), f));
    }
}

impl Clone for Json {
    fn clone(&self) -> (r: Json)
        ensures
            r@ == self@,
        decreases *self,
    {
        match self {
            Json::Null => Json::Null,
            Json::Bool(b) => Json::Bool(*b),
            Json::Number(t) => Json::Number(t.clone()),
            Json::Text(t) => Json::Text(t.clone()),
            Json::Array(items) => {
                let mut out: Vec<Json> = Vec::new();
                let mut i: usize = 0;
                assert(items@.take(0) =~= Seq::<Json>::empty());
                while i < items.len()
                    invariant
                        i <= items@.len(),
                        *self == Json::Array(*items),
                        models(out@) == models(items@.take(i as int)),
                    decreases items@.len() - i,
                {
                    proof {
                        assert(items@.take(i + 1).drop_last() =~= items@.take(i as int));
                        assert(decreases_to!(*self => self->Array_0));
                        assert(decreases_to!(self->Array_0 => items@));
                        assert(decreases_to!(items@ => items@[i as int]));
                    }
                    let ghost before = out@;
                    out.push(items[i].clone());
                    assert(out@.drop_last() =~= before);
                    i = i + 1;
                }
                assert(items@.take(i as int) =~= items@);
                Json::Array(out)
            },
            Json::Object(fields) => {
                let mut out: Vec<(String, Json)> = Vec::new();
                let mut i: usize = 0;
                assert(fields@.take(0) =~= Seq::<(String, Json)>::empty());
                while i < fields.len()
                    invariant
                        i <= fields@.len(),
                        *self == Json::Object(*fields),
                        field_models(out@) == field_models(fields@.take(i as int)),
                    decreases fields@.len() - i,
                {
                    proof {
                        assert(fields@.take(i + 1).drop_last() =~= fields@.take(i as int));
                        assert(decreases_to!(*self => self->Object_0));
                        assert(decreases_to!(self->Object_0 => fields@));
                        assert(decreases_to!(fields@ => fields@[i as int]));
                        assert(decreases_to!(fields@[i as int] => fields@[i as int].1));
                    }
                    let ghost before = out@;
                    out.push((fields[i].0.clone(), fields[i].1.clone()));
                    assert(out@.drop_last() =~= before);
                    i = i + 1;
                }
                assert(fields@.take(i as int) =~= fields@);
                Json::Object(out)
            },
        }
    }
}

/// An array that holds the same values as a list.
pub fn copy_array(items: &Vec<Json>) -> (r: Json)
    ensures
        r@ == JsonModel::Array(models(items@)),
{
    let mut out: Vec<Json> = Vec::new();
    let mut i: usize = 0;
    assert(items@.take(0) =~= Seq::<Json>::empty());
    while i < items.len()
        invariant
            i <= items@.len(),
            models(out@) == models(items@.take(i as int)),
        decreases items@.len() - i,
    {
        assert(items@.take(i + 1).drop_last() =~= items@.take(i as int));
        let ghost before = out@;
        out.push(items[i].clone());
        assert(out@.drop_last() =~= before);
        i = i + 1;
    }
    assert(items@.take(i as int) =~= items@);
    Json::Array(out)
}

/// Puts the keys of every object in a value in order.
pub fn sort_keys(v: &Json) -> (r: Json)
    ensures
        r@ == v@.ordered(),
    decreases *v,
{
    match v {
        Json::Array(items) => {
            let mut out: Vec<Json> = Vec::new();
            let mut i: usize = 0;
            assert(items@.take(0) =~= Seq::<Json>::empty());
            while i < items.len()
                invariant
                    i <= items@.len(),
                    *v == Json::Array(*items),
                    models(out@) == ordered_items(models(items@.take(i as int))),
                decreases items@.len() - i,
            {
                proof {
                    assert(items@.take(i + 1).drop_last() =~= items@.take(i as int));
                    assert(models(items@.take(i + 1)).drop_last() =~= models(items@.take(i as int)));
                    assert(decreases_to!(*v => v->Array_0));
                    assert(decreases_to!(v->Array_0 => items@));
                    assert(decreases_to!(items@ => items@[i as int]));
                }
                let ghost before = out@;
                out.push(sort_keys(&items[i]));
                assert(out@.drop_last() =~= before);
                i = i + 1;
            }
            assert(items@.take(i as int) =~= items@);
            Json::Array(out)
        },
        Json::Object(fields) => {
            let mut out: Vec<(String, Json)> = Vec::new();
            let mut i: usize = 0;
            assert(fields@.take(0) =~= Seq::<(String, Json)>::empty());
            while i < fields.len()
                invariant
                    i <= fields@.len(),
                    *v == Json::Object(*fields),
                    field_models(out@) == ordered_fields(field_models(fields@.take(i as int))),
                decreases fields@.len() - i,
            {
                proof {
                    assert(fields@.take(i + 1).drop_last() =~= fields@.take(i as int));
                    assert(field_models(fields@.take(i + 1)).drop_last() =~= field_models(
                        fields@.take(i as int),
                    ));
                    assert(decreases_to!(*v => v->Object_0));
                    assert(decreases_to!(v->Object_0 => fields@));
                    assert(decreases_to!(fields@ => fields@[i as int]));
                    assert(decreases_to!(fields@[i as int] => fields@[i as int].1));
                }
                let item: Json = sort_keys(&fields[i].1);
                put_field(&mut out, fields[i].0.clone(), item);
                i = i + 1;
            }
            assert(fields@.take(i as int) =~= fields@);
            Json::Object(out)
        },
        other => other.clone(),
    }
}

/// What an object holds under a key, its keys in order.
pub open spec fn held_ordered(fields: Seq<(Seq<char>, JsonModel)>, key: Seq<char>) -> Option<
    JsonModel,
> {
    match held(fields, key) {
        Some(v) => Some(v.ordered()),
        None => None,
    }
}

/// The keys of an ordered object increase, and it holds what the object held.
pub proof fn ordering_keeps_the_fields(fields: Seq<(Seq<char>, JsonModel)>, key: Seq<char>)
    ensures
        increasing(ordered_fields(fields)),
        held(ordered_fields(fields), key) == held_ordered(fields, key),
    decreases fields.len(),
{
    if fields.len() > 0 {
        ordering_keeps_the_fields(fields.drop_last(), key);
        ordered::lemma_insert_entry(
            ordered_fields(fields.drop_last()),
            fields.last().0,
            fields.last().1.ordered(),
            key,
        );
    }
}

/// The order in which an object's fields were put in leaves no trace: two
/// objects that hold the same under every key have the same ordered form, and
/// so the same text.
pub proof fn field_order_leaves_no_trace(
    a: Seq<(Seq<char>, JsonModel)>,
    b: Seq<(Seq<char>, JsonModel)>,
)
    requires
        forall|k: Seq<char>| #[trigger] held_ordered(a, k) == held_ordered(b, k),
    ensures
        JsonModel::Object(a).ordered() == JsonModel::Object(b).ordered(),
        JsonModel::Object(a).ordered().text() == JsonModel::Object(b).ordered().text(),
{
    let x = ordered_fields(a);
    let y = ordered_fields(b);
    ordering_keeps_the_fields(a, Seq::empty());
    ordering_keeps_the_fields(b, Seq::empty());
    assert forall|k: Seq<char>| #[trigger] held(x, k) == held(y, k) by {
        ordering_keeps_the_fields(a, k);
        ordering_keeps_the_fields(b, k);
        assert(held_ordered(a, k) == held_ordered(b, k));
    }
    ordered::lemma_increasing_unique(x, y);
}

/// What one character inside a JSON string is read as, by RFC 8259, section 7, and
/// how much of the text it takes; nothing where the text does not begin with one.
pub open spec fn read_char(text: Seq<char>) -> Option<(char, nat)> {
    if text.len() == 0 || text[0] == '"' || (text[0] as int) < 32 {
        None
    } else if text[0] != '\\' {
        Some((text[0], 1))
    } else if text.len() < 2 {
        None
    } else if text[1] == '"' || text[1] == '\\' || text[1] == '/' {
        Some((text[1], 2))
    } else if text[1] == 'b' {
        Some(('\u{8}', 2))
    } else if text[1] == 'f' {
        Some(('\u{c}', 2))
    } else if text[1] == 'n' {
        Some(('\n', 2))
    } else if text[1] == 'r' {
        Some(('\r', 2))
    } else if text[1] == 't' {
        Some(('\t', 2))
    } else if text[1] == 'u' && text.len() >= 6 && digit_value(text[2]) < 16 && digit_value(text[3])
        < 16 && digit_value(text[4]) < 16 && digit_value(text[5]) < 16 {
        Some(
            (
                (digit_value(text[2]) * 0x1000 + digit_value(text[3]) * 0x100 + digit_value(text[4])
                    * 0x10 + digit_value(text[5])) as char,
                6,
            ),
        )
    } else {
        None
    }
}

/// The value of a hexadecimal digit, or sixteen for another character.
pub open spec fn digit_value(c: char) -> int {
    if '0' <= c && c <= '9' {
        c as int - '0' as int
    } else if 'a' <= c && c <= 'f' {
        c as int - 'a' as int + 10
    } else if 'A' <= c && c <= 'F' {
        c as int - 'A' as int + 10
    } else {
        16
    }
}

/// The characters that the inside of a JSON string is read as, up to its closing
/// quote; nothing where there is none or something before it cannot be read.
pub open spec fn read_string(text: Seq<char>) -> Option<Seq<char>>
    decreases text.len(),
{
    if text.len() > 0 && text[0] == '"' {
        Some(Seq::empty())
    } else {
        match read_char(text) {
            Some((c, n)) => if 0 < n <= text.len() {
                match read_string(text.skip(n as int)) {
                    Some(rest) => Some(seq![c] + rest),
                    None => None,
                }
            } else {
                None
            },
            None => None,
        }
    }
}

/// Whatever follows it, a character is read back from how it is written, and ends no
/// string early.
pub proof fn characters_read_back(c: char, rest: Seq<char>)
    ensures
        escaped(c).len() > 0,
        escaped(c)[0] != '"',
        read_char(escaped(c) + rest) == Some((c, escaped(c).len())),
{
    let text = escaped(c) + rest;
    let n = c as int;
    if n < 32 && n != 8 && n != 9 && n != 10 && n != 12 && n != 13 {
        assert(text[2] == '0' && text[3] == '0');
        assert(text[4] == hex((n / 16) as nat) && text[5] == hex((n % 16) as nat));
        assert(digit_value(text[4]) == n / 16);
        assert(digit_value(text[5]) == n % 16);
    }
}

proof fn lemma_escapes_first(s: Seq<char>)
    requires
        s.len() > 0,
    ensures
        escapes(s) == escaped(s[0]) + escapes(s.drop_first()),
    decreases s.len(),
{
    if s.len() == 1 {
        assert(s.drop_last() =~= Seq::<char>::empty());
        assert(s.drop_first() =~= Seq::<char>::empty());
        assert(escapes(s.drop_last()) =~= Seq::<char>::empty());
        assert(escapes(s) =~= escaped(s[0]) + escapes(s.drop_first()));
    } else {
        let init = s.drop_last();
        lemma_escapes_first(init);
        assert(init.drop_first() =~= s.drop_first().drop_last());
        assert(s.drop_first().last() == s.last());
        assert(escapes(s) =~= escaped(s[0]) + escapes(s.drop_first()));
    }
}

/// Any text reads back from the JSON string that it is written as, whatever follows
/// the string.
pub proof fn strings_read_back(s: Seq<char>, rest: Seq<char>)
    ensures
        quoted(s)[0] == '"',
        read_string((quoted(s) + rest).skip(1)) == Some(s),
    decreases s.len(),
{
    let inside = (quoted(s) + rest).skip(1);
    if s.len() == 0 {
        assert(inside[0] == '"');
    } else {
        lemma_escapes_first(s);
        let behind = (quoted(s.drop_first()) + rest).skip(1);
        assert(inside =~= escaped(s[0]) + behind);
        characters_read_back(s[0], behind);
        strings_read_back(s.drop_first(), rest);
        let n = escaped(s[0]).len();
        assert(inside[0] == escaped(s[0])[0]);
        assert(inside.skip(n as int) =~= behind);
        assert(seq![s[0]] + s.drop_first() =~= s);
    }
}

/// A list is written as its values in their order between brackets, and an object as
/// its fields in their order between braces, a comma between each two and nothing
/// else; a field is its name as a string, a colon and its value.
pub proof fn values_are_written_in_order(
    items: Seq<JsonModel>,
    fields: Seq<(Seq<char>, JsonModel)>,
)
    ensures
        JsonModel::Array(items).text() == seq!['['] + text::joined(
            Seq::new(items.len(), |i: int| items[i].text()),
            ',',
        ) + seq![']'],
        JsonModel::Object(fields).text() == seq!['{'] + text::joined(
            Seq::new(
                fields.len(),
                |i: int| quoted(fields[i].0) + seq![':'] + fields[i].1.text(),
            ),
            ',',
        ) + seq!['}'],
{
    lemma_items_joined(items);
    lemma_fields_joined(fields);
}

proof fn lemma_items_joined(items: Seq<JsonModel>)
    ensures
        items_text(items) == text::joined(Seq::new(items.len(), |i: int| items[i].text()), ','),
    decreases items.len(),
{
    let texts = Seq::new(items.len(), |i: int| items[i].text());
    if items.len() > 1 {
        let init = items.drop_last();
        lemma_items_joined(init);
        assert(texts.drop_last() =~= Seq::new(init.len(), |i: int| init[i].text()));
    }
}

proof fn lemma_fields_joined(fields: Seq<(Seq<char>, JsonModel)>)
    ensures
        fields_text(fields) == text::joined(
            Seq::new(
                fields.len(),
                |i: int| quoted(fields[i].0) + seq![':'] + fields[i].1.text(),
            ),
            ',',
        ),
    decreases fields.len(),
{
    let texts = Seq::new(
        fields.len(),
        |i: int| quoted(fields[i].0) + seq![':'] + fields[i].1.text(),
    );
    if fields.len() > 1 {
        let init = fields.drop_last();
        lemma_fields_joined(init);
        assert(texts.drop_last() =~= Seq::new(
            init.len(),
            |i: int| quoted(init[i].0) + seq![':'] + init[i].1.text(),
        ));
    }
}

/// Putting keys in order changes neither what kind of value it is nor what a list
/// holds and in which order: it is done to each value on its own, and every field of
/// an object keeps its value.
pub proof fn ordering_changes_only_objects(v: JsonModel)
    ensures
        !(v is Object) && !(v is Array) ==> v.ordered() == v,
        v is Object <==> v.ordered() is Object,
        v is Array <==> v.ordered() is Array,
        v matches JsonModel::Array(items) ==> v.ordered() matches JsonModel::Array(after)
            && after.len() == items.len() && forall|i: int|
            0 <= i < items.len() ==> #[trigger] after[i] == items[i].ordered(),
        v matches JsonModel::Object(fields) ==> v.ordered() matches JsonModel::Object(after)
            && increasing(after) && forall|key: Seq<char>| #[trigger]
            held(after, key) == held_ordered(fields, key),
{
    if let JsonModel::Array(items) = v {
        lemma_each_ordered(items);
    }
    if let JsonModel::Object(fields) = v {
        ordering_keeps_the_fields(fields, Seq::empty());
        assert forall|key: Seq<char>| #[trigger]
            held(ordered_fields(fields), key) == held_ordered(fields, key) by {
            ordering_keeps_the_fields(fields, key);
        }
    }
}

proof fn lemma_each_ordered(items: Seq<JsonModel>)
    ensures
        ordered_items(items).len() == items.len(),
        forall|i: int| 0 <= i < items.len() ==> #[trigger] ordered_items(items)[i]
            == items[i].ordered(),
    decreases items.len(),
{
    if items.len() > 0 {
        lemma_each_ordered(items.drop_last());
    }
}

/// What a list or an object holds is what its values and fields hold, one for one and
/// in their order.
pub proof fn views_are_one_for_one(items: Seq<Json>, fields: Seq<(String, Json)>)
    ensures
        models(items) == Seq::new(items.len(), |i: int| items[i]@),
        field_models(fields) == Seq::new(
            fields.len(),
            |i: int| (fields[i].0@, fields[i].1@),
        ),
{
    lemma_models_each(items);
    lemma_field_models(fields);
    assert(models(items) =~= Seq::new(items.len(), |i: int| items[i]@));
    assert(field_models(fields) =~= Seq::new(
        fields.len(),
        |i: int| (fields[i].0@, fields[i].1@),
    ));
}

proof fn lemma_models_each(items: Seq<Json>)
    ensures
        models(items).len() == items.len(),
        forall|i: int| 0 <= i < items.len() ==> #[trigger] models(items)[i] == items[i]@,
    decreases items.len(),
{
    if items.len() > 0 {
        lemma_models_each(items.drop_last());
    }
}

/// The values that hold no others are written as themselves: the three literal names of
/// RFC 8259, a number as the text it was given as, and a text in quotes.
pub proof fn scalars_are_written_as_they_are(b: bool, number: Seq<char>, s: Seq<char>)
    ensures
        JsonModel::Null.text() == seq!['n', 'u', 'l', 'l'],
        JsonModel::Bool(b).text() == (if b {
            seq!['t', 'r', 'u', 'e']
        } else {
            seq!['f', 'a', 'l', 's', 'e']
        }),
        JsonModel::Number(number).text() == number,
        read_string(JsonModel::Text(s).text().skip(1)) == Some(s),
{
    reveal_strlit("null");
    reveal_strlit("true");
    reveal_strlit("false");
    assert("null"@ =~= seq!['n', 'u', 'l', 'l']);
    assert("true"@ =~= seq!['t', 'r', 'u', 'e']);
    assert("false"@ =~= seq!['f', 'a', 'l', 's', 'e']);
    strings_read_back(s, Seq::empty());
    assert(quoted(s) + Seq::<char>::empty() =~= quoted(s));
}

} // verus!
