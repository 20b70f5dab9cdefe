//! JSON values, as far as the feeds read them.
//!
//! `serde_json` and `simd-json` turn bytes into a tree; [`from_value`] copies that
//! tree into [`Json`], which the rest of the library reads. [`Doc`] is what a tree
//! says, without regard to how it is stored.

use crate::text::{joined, push_joined, same_text, texts};
use vstd::prelude::*;

verus! {

/// What is read of a JSON number: its value as an unsigned and as a signed integer
/// where it is one, and the bit pattern of its value as a binary64 number.
#[derive(Clone, Copy, PartialEq, Eq, Structural, Debug)]
pub struct Number {
    /// The number as a `u64`, where it is one.
    pub unsigned: Option<u64>,
    /// The number as an `i64`, where it is one.
    pub signed: Option<i64>,
    /// The bits of the number as a binary64 number.
    pub bits: Option<u64>,
}

/// A JSON value in the abstract.
pub enum Doc {
    /// The null value.
    Null,
    /// A truth value.
    Bool(bool),
    /// A number.
    Num(Number),
    /// A text.
    Str(Seq<char>),
    /// A list.
    Arr(Seq<Doc>),
    /// Fields by name.
    Obj(Seq<(Seq<char>, Doc)>),
}

/// A JSON value.
#[derive(Debug)]
pub enum Json {
    /// The null value.
    Null,
    /// A truth value.
    Bool(bool),
    /// A number.
    Num(Number),
    /// A text.
    Str(String),
    /// A list.
    Arr(Vec<Json>),
    /// Fields by name.
    Obj(Vec<(String, Json)>),
}

/// What a stored value says.
pub open spec fn value_of(j: Json) -> Doc
    decreases j,
{
    match j {
        Json::Null => Doc::Null,
        Json::Bool(b) => Doc::Bool(b),
        Json::Num(n) => Doc::Num(n),
        Json::Str(s) => Doc::Str(s@),
        Json::Arr(v) => Doc::Arr(values_of(v@)),
        Json::Obj(v) => Doc::Obj(fields_of(v@)),
    }
}

/// What the items of a list say.
pub open spec fn values_of(s: Seq<Json>) -> Seq<Doc>
    decreases s,
{
    if s.len() == 0 {
        Seq::empty()
    } else {
        values_of(s.drop_last()).push(value_of(s.last()))
    }
}

/// What the fields of an object say.
pub open spec fn fields_of(s: Seq<(String, Json)>) -> Seq<(Seq<char>, Doc)>
    decreases s,
{
    if s.len() == 0 {
        Seq::empty()
    } else {
        fields_of(s.drop_last()).push((s.last().0@, value_of(s.last().1)))
    }
}

impl View for Json {
    type V = Doc;

    open spec fn view(&self) -> Doc {
        value_of(*self)
    }
}

/// A list says what its items say, one by one.
pub proof fn lemma_values(s: Seq<Json>)
    ensures
        values_of(s).len() == s.len(),
        forall|i: int| 0 <= i < s.len() ==> #[trigger] values_of(s)[i] == s[i]@,
    decreases s.len(),
{
    if s.len() > 0 {
        lemma_values(s.drop_last());
        assert forall|i: int| 0 <= i < s.len() implies #[trigger] values_of(s)[i] == s[i]@ by {
            if i < s.len() - 1 {
                assert(values_of(s)[i] == values_of(s.drop_last())[i]);
                assert(s.drop_last()[i] == s[i]);
            }
        }
    }
}

/// An object says what its fields say, one by one.
pub proof fn lemma_fields(s: Seq<(String, Json)>)
    ensures
        fields_of(s).len() == s.len(),
        forall|i: int| 0 <= i < s.len() ==> #[trigger] fields_of(s)[i] == (s[i].0@, s[i].1@),
    decreases s.len(),
{
    if s.len() > 0 {
        lemma_fields(s.drop_last());
        assert forall|i: int| 0 <= i < s.len() implies #[trigger] fields_of(s)[i] == (
            s[i].0@,
            s[i].1@,
        ) by {
            if i < s.len() - 1 {
                assert(fields_of(s)[i] == fields_of(s.drop_last())[i]);
                assert(s.drop_last()[i] == s[i]);
            }
        }
    }
}

/// The first field named `key` from place `from` on.
pub open spec fn field_from(fields: Seq<(Seq<char>, Doc)>, key: Seq<char>, from: int) -> Option<
    Doc,
>
    decreases fields.len() - from,
{
    if from >= fields.len() {
        None
    } else if fields[from].0 == key {
        Some(fields[from].1)
    } else {
        field_from(fields, key, from + 1)
    }
}

/// The field `key` of an object; there is none where the value is no object.
pub open spec fn field(v: Doc, key: Seq<char>) -> Option<Doc> {
    match v {
        Doc::Obj(fields) => field_from(fields, key, 0),
        _ => None,
    }
}

/// The item at `i` of a list; there is none where the value is no list.
pub open spec fn item(v: Doc, i: int) -> Option<Doc> {
    match v {
        Doc::Arr(items) => if 0 <= i < items.len() {
            Some(items[i])
        } else {
            None
        },
        _ => None,
    }
}

/// The text of a value that is one.
pub open spec fn str_in(v: Doc) -> Option<Seq<char>> {
    match v {
        Doc::Str(s) => Some(s),
        _ => None,
    }
}

/// The unsigned integer of a number that is one.
pub open spec fn u64_in(v: Doc) -> Option<u64> {
    match v {
        Doc::Num(n) => n.unsigned,
        _ => None,
    }
}

/// The signed integer of a number that is one.
pub open spec fn i64_in(v: Doc) -> Option<i64> {
    match v {
        Doc::Num(n) => n.signed,
        _ => None,
    }
}

/// The bit pattern of a number.
pub open spec fn bits_in(v: Doc) -> Option<u64> {
    match v {
        Doc::Num(n) => n.bits,
        _ => None,
    }
}

/// The truth value of a value that is one.
pub open spec fn bool_in(v: Doc) -> Option<bool> {
    match v {
        Doc::Bool(b) => Some(b),
        _ => None,
    }
}

/// The items of a value that is a list.
pub open spec fn items_in(v: Doc) -> Option<Seq<Doc>> {
    match v {
        Doc::Arr(items) => Some(items),
        _ => None,
    }
}

/// The text of the field `key`.
pub open spec fn str_field(v: Doc, key: Seq<char>) -> Option<Seq<char>> {
    match field(v, key) {
        Some(f) => str_in(f),
        None => None,
    }
}

/// The unsigned integer of the field `key`.
pub open spec fn u64_field(v: Doc, key: Seq<char>) -> Option<u64> {
    match field(v, key) {
        Some(f) => u64_in(f),
        None => None,
    }
}

/// The signed integer of the field `key`.
pub open spec fn i64_field(v: Doc, key: Seq<char>) -> Option<i64> {
    match field(v, key) {
        Some(f) => i64_in(f),
        None => None,
    }
}

/// The bit pattern of the number of the field `key`.
pub open spec fn bits_field(v: Doc, key: Seq<char>) -> Option<u64> {
    match field(v, key) {
        Some(f) => bits_in(f),
        None => None,
    }
}

/// The truth value of the field `key`.
pub open spec fn bool_field(v: Doc, key: Seq<char>) -> Option<bool> {
    match field(v, key) {
        Some(f) => bool_in(f),
        None => None,
    }
}

/// The items of the field `key`.
pub open spec fn items_field(v: Doc, key: Seq<char>) -> Option<Seq<Doc>> {
    match field(v, key) {
        Some(f) => items_in(f),
        None => None,
    }
}

/// The text of the item at `i`.
pub open spec fn str_item(v: Doc, i: int) -> Option<Seq<char>> {
    match item(v, i) {
        Some(x) => str_in(x),
        None => None,
    }
}

/// What an optional text says.
pub open spec fn opt_text(s: Option<&str>) -> Option<Seq<char>> {
    match s {
        Some(t) => Some(t@),
        None => None,
    }
}

/// What an optional value says.
pub open spec fn opt_value(j: Option<&Json>) -> Option<Doc> {
    match j {
        Some(v) => Some(v@),
        None => None,
    }
}

/// What an optional list says.
pub open spec fn opt_values(v: Option<&Vec<Json>>) -> Option<Seq<Doc>> {
    match v {
        Some(items) => Some(values_of(items@)),
        None => None,
    }
}

impl Json {
    /// The field `key`.
    pub fn get(&self, key: &str) -> (r: Option<&Json>)
        ensures
            opt_value(r) == field(self@, key@),
    {
        match self {
            Json::Obj(fields) => {
                proof {
                    lemma_fields(fields@);
                }
                let mut i: usize = 0;
                while i < fields.len()
                    invariant
                        i <= fields@.len(),
                        fields_of(fields@).len() == fields@.len(),
                        forall|k: int|
                            0 <= k < fields@.len() ==> #[trigger] fields_of(fields@)[k] == (
                                fields@[k].0@,
                                fields@[k].1@,
                            ),
                        self@ == Doc::Obj(fields_of(fields@)),
                        field(self@, key@) == field_from(fields_of(fields@), key@, i as int),
                    decreases fields@.len() - i,
                {
                    let f = &fields[i];
                    assert(fields_of(fields@)[i as int] == (f.0@, f.1@));
                    if same_text(f.0.as_str(), key) {
                        return Some(&f.1);
                    }
                    i += 1;
                }
                None
            },
            _ => None,
        }
    }

    /// The item at `i`.
    pub fn at(&self, i: usize) -> (r: Option<&Json>)
        ensures
            opt_value(r) == item(self@, i as int),
    {
        match self {
            Json::Arr(items) => {
                proof {
                    lemma_values(items@);
                }
                if i < items.len() {
                    assert(values_of(items@)[i as int] == items@[i as int]@);
                    Some(&items[i])
                } else {
                    None
                }
            },
            _ => None,
        }
    }

    /// The text, where the value is one.
    pub fn as_str(&self) -> (r: Option<&str>)
        ensures
            opt_text(r) == str_in(self@),
    {
        match self {
            Json::Str(s) => Some(s.as_str()),
            _ => None,
        }
    }

    /// The unsigned integer, where the value is one.
    pub fn as_u64(&self) -> (r: Option<u64>)
        ensures
            r == u64_in(self@),
    {
        match self {
            Json::Num(n) => n.unsigned,
            _ => None,
        }
    }

    /// The signed integer, where the value is one.
    pub fn as_i64(&self) -> (r: Option<i64>)
        ensures
            r == i64_in(self@),
    {
        match self {
            Json::Num(n) => n.signed,
            _ => None,
        }
    }

    /// The bit pattern of the number, where the value is one.
    pub fn as_bits(&self) -> (r: Option<u64>)
        ensures
            r == bits_in(self@),
    {
        match self {
            Json::Num(n) => n.bits,
            _ => None,
        }
    }

    /// The truth value, where the value is one.
    pub fn as_bool(&self) -> (r: Option<bool>)
        ensures
            r == bool_in(self@),
    {
        match self {
            Json::Bool(b) => Some(*b),
            _ => None,
        }
    }

    /// The items, where the value is a list.
    pub fn as_array(&self) -> (r: Option<&Vec<Json>>)
        ensures
            opt_values(r) == items_in(self@),
    {
        match self {
            Json::Arr(items) => Some(items),
            _ => None,
        }
    }

    /// The text of the field `key`.
    pub fn get_str(&self, key: &str) -> (r: Option<&str>)
        ensures
            opt_text(r) == str_field(self@, key@),
    {
        match self.get(key) {
            Some(f) => f.as_str(),
            None => None,
        }
    }

    /// The unsigned integer of the field `key`.
    pub fn get_u64(&self, key: &str) -> (r: Option<u64>)
        ensures
            r == u64_field(self@, key@),
    {
        match self.get(key) {
            Some(f) => f.as_u64(),
            None => None,
        }
    }

    /// The signed integer of the field `key`.
    pub fn get_i64(&self, key: &str) -> (r: Option<i64>)
        ensures
            r == i64_field(self@, key@),
    {
        match self.get(key) {
            Some(f) => f.as_i64(),
            None => None,
        }
    }

    /// The bit pattern of the number of the field `key`.
    pub fn get_bits(&self, key: &str) -> (r: Option<u64>)
        ensures
            r == bits_field(self@, key@),
    {
        match self.get(key) {
            Some(f) => f.as_bits(),
            None => None,
        }
    }

    /// The truth value of the field `key`.
    pub fn get_bool(&self, key: &str) -> (r: Option<bool>)
        ensures
            r == bool_field(self@, key@),
    {
        match self.get(key) {
            Some(f) => f.as_bool(),
            None => None,
        }
    }

    /// The items of the field `key`.
    pub fn get_array(&self, key: &str) -> (r: Option<&Vec<Json>>)
        ensures
            opt_values(r) == items_field(self@, key@),
    {
        match self.get(key) {
            Some(f) => f.as_array(),
            None => None,
        }
    }

    /// The text of the item at `i`.
    pub fn str_at(&self, i: usize) -> (r: Option<&str>)
        ensures
            opt_text(r) == str_item(self@, i as int),
    {
        match self.at(i) {
            Some(x) => x.as_str(),
            None => None,
        }
    }
}

/// `serde_json::Value`, described by [`tree`].
#[verifier::external_type_specification]
#[verifier::external_body]
pub struct ExValue(serde_json::Value);

/// What a parsed tree says.
pub uninterp spec fn tree(v: serde_json::Value) -> Doc;

/// One level of a parsed tree.
enum Node {
    Null,
    Bool(bool),
    Num(Number),
    Str(String),
    Arr(Vec<serde_json::Value>),
    Obj(Vec<(String, serde_json::Value)>),
}

/// What one level of a tree says, given what its branches say.
spec fn node_value(n: Node) -> Doc {
    match n {
        Node::Null => Doc::Null,
        Node::Bool(b) => Doc::Bool(b),
        Node::Num(x) => Doc::Num(x),
        Node::Str(s) => Doc::Str(s@),
        Node::Arr(v) => Doc::Arr(v@.map_values(|x: serde_json::Value| tree(x))),
        Node::Obj(v) => Doc::Obj(
            v@.map_values(|x: (String, serde_json::Value)| (x.0@, tree(x.1))),
        ),
    }
}

/// The variants of `serde_json::Value`, one level deep: a value is null, a truth
/// value, a number, a text, a list of values or fields that are values. Numbers are
/// read by `Number::as_u64`, `as_i64` and `as_f64`.
#[verifier::external_body]
fn node(v: serde_json::Value) -> (n: Node)
    ensures
        node_value(n) == tree(v),
{
    match v {
        serde_json::Value::Null => Node::Null,
        serde_json::Value::Bool(b) => Node::Bool(b),
        serde_json::Value::Number(n) => Node::Num(Number {
            unsigned: n.as_u64(),
            signed: n.as_i64(),
            bits: n.as_f64().map(|x| x.to_bits()),
        }),
        serde_json::Value::String(s) => Node::Str(s),
        serde_json::Value::Array(a) => Node::Arr(a),
        serde_json::Value::Object(o) => Node::Obj(o.into_iter().collect()),
    }
}

/// A copy of a parsed tree.
pub fn from_value(v: serde_json::Value) -> (j: Json)
    ensures
        j@ == tree(v),
    decreases tree(v),
{
    match node(v) {
        Node::Null => Json::Null,
        Node::Bool(b) => Json::Bool(b),
        Node::Num(n) => Json::Num(n),
        Node::Str(s) => Json::Str(s),
        Node::Arr(items) => {
            let mut out: Vec<Json> = Vec::new();
            for x in it: items
                invariant
                    out@.len() == it.index(),
                    it.seq() == items@,
                    tree(v) == Doc::Arr(items@.map_values(|x: serde_json::Value| tree(x))),
                    forall|k: int| 0 <= k < out@.len() ==> #[trigger] out@[k]@ == tree(items@[k]),
            {
                proof {
                    let ghost all = items@.map_values(|x: serde_json::Value| tree(x));
                    assert(all[it.index()] == tree(x));
                    assert(decreases_to!(tree(v) => tree(v)->Arr_0));
                    assert(tree(v)->Arr_0 == all);
                    assert(decreases_to!(all => all[it.index()]));
                }
                out.push(from_value(x));
            }
            proof {
                lemma_values(out@);
                assert(values_of(out@) =~= items@.map_values(|x: serde_json::Value| tree(x)));
            }
            Json::Arr(out)
        },
        Node::Obj(fields) => {
            let mut out: Vec<(String, Json)> = Vec::new();
            for x in it: fields
                invariant
                    out@.len() == it.index(),
                    it.seq() == fields@,
                    tree(v) == Doc::Obj(
                        fields@.map_values(|x: (String, serde_json::Value)| (x.0@, tree(x.1))),
                    ),
                    forall|k: int|
                        0 <= k < out@.len() ==> (#[trigger] out@[k]).0@ == fields@[k].0@
                            && out@[k].1@ == tree(fields@[k].1),
            {
                proof {
                    let ghost all = fields@.map_values(
                        |x: (String, serde_json::Value)| (x.0@, tree(x.1)),
                    );
                    assert(all[it.index()] == (x.0@, tree(x.1)));
                    assert(decreases_to!(tree(v) => tree(v)->Obj_0));
                    assert(tree(v)->Obj_0 == all);
                    assert(decreases_to!(all => all[it.index()]));
                    assert(decreases_to!(all[it.index()] => all[it.index()].1));
                }
                let (name, value) = x;
                out.push((name, from_value(value)));
            }
            proof {
                lemma_fields(out@);
                assert(fields_of(out@) =~= fields@.map_values(
                    |x: (String, serde_json::Value)| (x.0@, tree(x.1)),
                ));
            }
            Json::Obj(out)
        },
    }
}

/// What the bytes of a JSON text say, by `serde_json`; nothing where they are not
/// one.
pub uninterp spec fn parsed(bytes: Seq<u8>) -> Option<Doc>;

/// What the bytes of a JSON text say, by `simd-json`; nothing where they are not
/// one.
pub uninterp spec fn parsed_simd(bytes: Seq<u8>) -> Option<Doc>;

/// What an optional tree says.
spec fn opt_tree(v: Option<serde_json::Value>) -> Option<Doc> {
    match v {
        Some(x) => Some(tree(x)),
        None => None,
    }
}

/// `serde_json::from_slice`: the tree of a JSON text, or none where the bytes are
/// not one. Which tree belongs to which bytes is [`parsed`].
#[verifier::external_body]
fn read_value(bytes: &[u8]) -> (r: Option<serde_json::Value>)
    ensures
        opt_tree(r) == parsed(bytes@),
{
    serde_json::from_slice(bytes).ok()
}

/// `simd_json::serde::from_slice`: the tree of a JSON text, or none where the bytes
/// are not one. The bytes are used up. Which tree belongs to which bytes is
/// [`parsed_simd`].
#[verifier::external_body]
fn read_value_simd(bytes: Vec<u8>) -> (r: Option<serde_json::Value>)
    ensures
        opt_tree(r) == parsed_simd(bytes@),
{
    let mut bytes = bytes;
    simd_json::serde::from_slice(&mut bytes).ok()
}

/// A hexadecimal digit in lower case.
pub open spec fn hex_digit(d: int) -> char {
    if d < 10 {
        (('0' as int) + d) as char
    } else {
        (('a' as int) + d - 10) as char
    }
}

/// How a character stands in a JSON text.
pub open spec fn escaped(c: char) -> Seq<char> {
    if c == '"' {
        seq!['\\', '"']
    } else if c == '\\' {
        seq!['\\', '\\']
    } else if c == '\u{8}' {
        seq!['\\', 'b']
    } else if c == '\u{c}' {
        seq!['\\', 'f']
    } else if c == '\n' {
        seq!['\\', 'n']
    } else if c == '\r' {
        seq!['\\', 'r']
    } else if c == '\t' {
        seq!['\\', 't']
    } else if c <= '\u{1f}' {
        seq!['\\', 'u', '0', '0', hex_digit(c as int / 16), hex_digit(c as int % 16)]
    } else {
        seq![c]
    }
}

/// A text as it stands in a JSON text, without the quotation marks.
pub open spec fn escaped_text(s: Seq<char>) -> Seq<char>
    decreases s.len(),
{
    if s.len() == 0 {
        Seq::empty()
    } else {
        escaped_text(s.drop_last()) + escaped(s.last())
    }
}

/// A text as a JSON text.
pub open spec fn quoted(s: Seq<char>) -> Seq<char> {
    seq!['"'] + escaped_text(s) + seq!['"']
}

/// `serde_json::to_string` on a text: the text in quotation marks, with quotation
/// marks, backslashes and control characters escaped.
#[verifier::external_body]
pub(crate) fn quote(s: &str) -> (r: String)
    ensures
        r@ == quoted(s@),
{
    serde_json::to_string(s).expect("a text is always valid JSON")
}

/// Some texts as a JSON list.
pub open spec fn quoted_list(v: Seq<Seq<char>>) -> Seq<char> {
    "["@ + joined(v.map_values(|s: Seq<char>| quoted(s)), ","@) + "]"@
}

/// Appends some texts as a JSON list.
pub fn push_quoted_list(s: &mut String, v: &[String])
    ensures
        final(s)@ == old(s)@ + quoted_list(texts(v@)),
{
    let mut q: Vec<String> = Vec::new();
    let mut i: usize = 0;
    while i < v.len()
        invariant
            i <= v@.len(),
            q@.len() == i,
            forall|k: int| 0 <= k < i ==> (#[trigger] q@[k])@ == quoted(v@[k]@),
        decreases v@.len() - i,
    {
        q.push(quote(v[i].as_str()));
        i += 1;
    }
    assert(texts(q@) =~= texts(v@).map_values(|s: Seq<char>| quoted(s)));
    s.append("[");
    push_joined(s, q.as_slice(), ",");
    s.append("]");
    assert(s@ =~= old(s)@ + quoted_list(texts(v@)));
}

/// What an optional owned value says.
pub open spec fn opt_json(j: Option<Json>) -> Option<Doc> {
    match j {
        Some(v) => Some(v@),
        None => None,
    }
}

/// Reads a JSON text.
pub fn parse(bytes: &[u8]) -> (r: Option<Json>)
    ensures
        opt_json(r) == parsed(bytes@),
{
    match read_value(bytes) {
        Some(v) => Some(from_value(v)),
        None => None,
    }
}

/// Reads a JSON text the fast way.
pub fn parse_simd(bytes: Vec<u8>) -> (r: Option<Json>)
    ensures
        opt_json(r) == parsed_simd(bytes@),
{
    match read_value_simd(bytes) {
        Some(v) => Some(from_value(v)),
        None => None,
    }
}

/// Whether a value is an object whose first field named `key` has the value `x`.
pub open spec fn has_field(v: Doc, key: Seq<char>, x: Doc) -> bool {
    exists|i: int| #[trigger] has_field_at(v, key, x, i)
}

/// Whether the first field named `key` stands at place `i` and has the value `x`.
pub open spec fn has_field_at(v: Doc, key: Seq<char>, x: Doc, i: int) -> bool {
    &&& v matches Doc::Obj(fields)
    &&& 0 <= i < fields.len()
    &&& fields[i].0 == key
    &&& fields[i].1 == x
    &&& forall|j: int| 0 <= j < i ==> (#[trigger] fields[j]).0 != key
}

/// Whether a value is no object with a field named `key`.
pub open spec fn lacks(v: Doc, key: Seq<char>) -> bool {
    v matches Doc::Obj(fields) ==> forall|i: int|
        0 <= i < fields.len() ==> (#[trigger] fields[i]).0 != key
}

proof fn lemma_field_from(fields: Seq<(Seq<char>, Doc)>, key: Seq<char>, from: int, i: int)
    requires
        0 <= from <= i <= fields.len(),
        forall|j: int| from <= j < i ==> (#[trigger] fields[j]).0 != key,
        i < fields.len() ==> fields[i].0 == key,
    ensures
        field_from(fields, key, from) == (if i < fields.len() {
            Some(fields[i].1)
        } else {
            None::<Doc>
        }),
    decreases i - from,
{
    if from < i {
        lemma_field_from(fields, key, from + 1, i);
    }
}

/// What is read of an object under a name is the value of its first field of that name,
/// as what that value is: a text as a text, a number as a number, a truth value as one,
/// a list as its items, and nothing as what it is not.
pub proof fn law_fields_are_read_by_name(v: Doc, key: Seq<char>, x: Doc)
    requires
        has_field(v, key, x),
    ensures
        field(v, key) == Some(x),
        str_field(v, key) == (match x {
            Doc::Str(s) => Some(s),
            _ => None,
        }),
        u64_field(v, key) == (match x {
            Doc::Num(n) => n.unsigned,
            _ => None,
        }),
        i64_field(v, key) == (match x {
            Doc::Num(n) => n.signed,
            _ => None,
        }),
        bits_field(v, key) == (match x {
            Doc::Num(n) => n.bits,
            _ => None,
        }),
        bool_field(v, key) == (match x {
            Doc::Bool(b) => Some(b),
            _ => None,
        }),
        items_field(v, key) == (match x {
            Doc::Arr(items) => Some(items),
            _ => None,
        }),
{
    let i = choose|i: int| has_field_at(v, key, x, i);
    assert(has_field_at(v, key, x, i));
    if let Doc::Obj(fields) = v {
        lemma_field_from(fields, key, 0, i);
    }
}

/// Nothing is read under a name that a value has no field of.
pub proof fn law_missing_fields_are_not_read(v: Doc, key: Seq<char>)
    requires
        lacks(v, key),
    ensures
        field(v, key) is None,
        str_field(v, key) is None,
        u64_field(v, key) is None,
        i64_field(v, key) is None,
        bits_field(v, key) is None,
        bool_field(v, key) is None,
        items_field(v, key) is None,
{
    if let Doc::Obj(fields) = v {
        lemma_field_from(fields, key, 0, fields.len() as int);
    }
}

/// The item of a list is the one at its place, read as a text only where it is one.
pub proof fn law_items_are_read_by_place(items: Seq<Doc>, i: int)
    ensures
        0 <= i < items.len() ==> {
            &&& item(Doc::Arr(items), i) == Some(items[i])
            &&& str_item(Doc::Arr(items), i) == (match items[i] {
                Doc::Str(s) => Some(s),
                _ => None,
            })
        },
        !(0 <= i < items.len()) ==> item(Doc::Arr(items), i) is None && str_item(
            Doc::Arr(items),
            i,
        ) is None,
{
}

} // verus!
