//! The tagged-union value tree and its mathematical model.
//!
//! `JSONValue` is the executable tree; `SpecValue` is its ghost counterpart,
//! reached through [`JSONValue::model`].  Numbers keep the literal text they
//! were written with: the library never interprets a numeric literal beyond
//! checking it against the numeric grammar, so a value round-trips exactly.
//! An object is an ordered association list whose keys are unique.

use vstd::prelude::*;
use vstd::string::StringExecFns;

use crate::numbers::is_number_literal;

verus! {

/// A JSON-style document value.
///
/// `Number` holds the numeric literal text (for instance `"42"` or `"-1.5e3"`),
/// `Text` holds string contents with the surrounding quotes stripped, `Object`
/// holds its fields in insertion order.
#[derive(Debug, PartialEq)]
pub enum JSONValue {
    Null,
    Bool(bool),
    Number(String),
    Text(String),
    Array(Vec<JSONValue>),
    Object(Vec<(String, JSONValue)>),
}

/// The ghost model of a [`JSONValue`]: the same tree over `Seq<char>`.
pub enum SpecValue {
    Null,
    Bool(bool),
    Number(Seq<char>),
    Text(Seq<char>),
    Array(Seq<SpecValue>),
    Object(Seq<(Seq<char>, SpecValue)>),
}

impl JSONValue {
    /// The mathematical value this tree stands for.
    pub open spec fn model(self) -> SpecValue
        decreases self,
    {
        match self {
            JSONValue::Null => SpecValue::Null,
            JSONValue::Bool(b) => SpecValue::Bool(b),
            JSONValue::Number(s) => SpecValue::Number(s@),
            JSONValue::Text(s) => SpecValue::Text(s@),
            JSONValue::Array(a) => SpecValue::Array(model_elems(a@)),
            JSONValue::Object(o) => SpecValue::Object(model_fields(o@)),
        }
    }
}

/// The models of a sequence of array elements, in order.
pub open spec fn model_elems(s: Seq<JSONValue>) -> Seq<SpecValue>
    decreases s,
{
    if s.len() == 0 {
        Seq::empty()
    } else {
        model_elems(s.drop_last()).push(s.last().model())
    }
}

/// The models of a sequence of object fields, in order.
pub open spec fn model_fields(s: Seq<(String, JSONValue)>) -> Seq<(Seq<char>, SpecValue)>
    decreases s,
{
    if s.len() == 0 {
        Seq::empty()
    } else {
        model_fields(s.drop_last()).push((s.last().0@, s.last().1.model()))
    }
}

/// The first value bound to `key` in an association list, if any.
pub open spec fn assoc_lookup(entries: Seq<(Seq<char>, SpecValue)>, key: Seq<char>) -> Option<
    SpecValue,
>
    decreases entries.len(),
{
    if entries.len() == 0 {
        None
    } else if entries[0].0 == key {
        Some(entries[0].1)
    } else {
        assoc_lookup(entries.drop_first(), key)
    }
}

pub broadcast proof fn lemma_model_elems_push(s: Seq<JSONValue>, x: JSONValue)
    ensures
        #[trigger] model_elems(s.push(x)) == model_elems(s).push(x.model()),
{
    assert(s.push(x).drop_last() =~= s);
    assert(s.push(x).last() == x);
}

pub broadcast proof fn lemma_model_elems(s: Seq<JSONValue>)
    ensures
        (#[trigger] model_elems(s)).len() == s.len(),
        forall|i: int| 0 <= i < s.len() ==> model_elems(s)[i] == s[i].model(),
    decreases s.len(),
{
    if s.len() > 0 {
        lemma_model_elems(s.drop_last());
    }
}

pub broadcast proof fn lemma_model_fields(s: Seq<(String, JSONValue)>)
    ensures
        (#[trigger] model_fields(s)).len() == s.len(),
        forall|i: int| 0 <= i < s.len() ==> model_fields(s)[i] == (s[i].0@, s[i].1.model()),
    decreases s.len(),
{
    if s.len() > 0 {
        lemma_model_fields(s.drop_last());
    }
}

/// `m` with the first binding of `k` replaced by `(k, v)`, or `(k, v)`
/// appended when `k` is not bound yet: writing a key again overwrites its
/// value in place.
pub open spec fn assoc_upsert(
    m: Seq<(Seq<char>, SpecValue)>,
    k: Seq<char>,
    v: SpecValue,
) -> Seq<(Seq<char>, SpecValue)>
    decreases m.len(),
{
    if m.len() == 0 {
        seq![(k, v)]
    } else if m[0].0 == k {
        seq![(k, v)] + m.drop_first()
    } else {
        seq![m[0]] + assoc_upsert(m.drop_first(), k, v)
    }
}

/// Replace the first binding of `k` in `out`, or append one.
#[verifier::loop_isolation(false)]
pub(crate) fn upsert_field(out: &mut Vec<(String, JSONValue)>, k: String, v: JSONValue)
    ensures
        model_fields(final(out)@) == assoc_upsert(model_fields(old(out)@), k@, v.model()),
{
    broadcast use lemma_model_fields;

    let ghost m0 = model_fields(old(out)@);
    let mut j: usize = 0;
    while j < out.len()
        invariant
            j <= out@.len(),
            out@ == old(out)@,
            forall|t: int| 0 <= t < j ==> m0[t].0 != k@,
        decreases out@.len() - j,
    {
        if out[j].0 == k {
            proof {
                lemma_model_fields(out@);
                assert(m0[j as int].0 == k@);
            }
            out.set(j, (k, v));
            proof {
                lemma_assoc_upsert_shape(m0, k@, v.model());
                assert(find_key(m0, k@) == j);
                lemma_model_fields(out@);
                assert(model_fields(out@) =~= m0.update(j as int, (k@, v.model())));
            }
            return ;
        }
        j = j + 1;
    }
    out.push((k, v));
    proof {
        lemma_assoc_upsert_shape(m0, k@, v.model());
        assert(find_key(m0, k@) == m0.len());
        assert(model_fields(out@) =~= m0.push((k@, v.model())));
    }
}

/// The first index binding `k` in `m`, or `m.len()`.
pub open spec fn find_key(m: Seq<(Seq<char>, SpecValue)>, k: Seq<char>) -> int
    decreases m.len(),
{
    if m.len() == 0 {
        0
    } else if m[0].0 == k {
        0
    } else {
        1 + find_key(m.drop_first(), k)
    }
}

/// Upserting replaces the first binding of the key in place, or appends one.
pub proof fn lemma_assoc_upsert_shape(m: Seq<(Seq<char>, SpecValue)>, k: Seq<char>, v: SpecValue)
    ensures
        0 <= find_key(m, k) <= m.len(),
        forall|t: int| 0 <= t < find_key(m, k) ==> (#[trigger] m[t]).0 != k,
        find_key(m, k) < m.len() ==> m[find_key(m, k)].0 == k,
        assoc_upsert(m, k, v) == (if find_key(m, k) < m.len() {
            m.update(find_key(m, k), (k, v))
        } else {
            m.push((k, v))
        }),
    decreases m.len(),
{
    if m.len() == 0 {
        assert(assoc_upsert(m, k, v) =~= m.push((k, v)));
    } else if m[0].0 == k {
        assert(assoc_upsert(m, k, v) =~= m.update(0, (k, v)));
    } else {
        lemma_assoc_upsert_shape(m.drop_first(), k, v);
        let j = find_key(m, k);
        assert(j == 1 + find_key(m.drop_first(), k));
        assert forall|t: int| 0 <= t < j implies (#[trigger] m[t]).0 != k by {
            if t >= 1 {
                assert(m[t] == m.drop_first()[t - 1]);
            }
        }
        if j < m.len() {
            assert(assoc_upsert(m, k, v) =~= m.update(j, (k, v)));
        } else {
            assert(assoc_upsert(m, k, v) =~= m.push((k, v)));
        }
    }
}

impl JSONValue {
    /// The boolean carried by a `Bool` value, and `None` on any other variant.
    pub fn as_bool(&self) -> (r: Option<bool>)
        ensures
            r == (match *self {
                JSONValue::Bool(b) => Some(b),
                _ => None::<bool>,
            }),
    {
        match self {
            JSONValue::Bool(b) => Some(*b),
            _ => None,
        }
    }

    /// The literal text of a `Number` value, and `None` on any other variant.
    pub fn as_number(&self) -> (r: Option<&String>)
        ensures
            match *self {
                JSONValue::Number(ref s) => r == Some(s),
                _ => r is None,
            },
    {
        match self {
            JSONValue::Number(s) => Some(s),
            _ => None,
        }
    }

    /// The contents of a `Text` value, and `None` on any other variant.
    pub fn as_string(&self) -> (r: Option<&String>)
        ensures
            match *self {
                JSONValue::Text(ref s) => r == Some(s),
                _ => r is None,
            },
    {
        match self {
            JSONValue::Text(s) => Some(s),
            _ => None,
        }
    }

    /// The elements of an `Array` value, and `None` on any other variant.
    pub fn as_array(&self) -> (r: Option<&Vec<JSONValue>>)
        ensures
            match *self {
                JSONValue::Array(ref a) => r == Some(a),
                _ => r is None,
            },
    {
        match self {
            JSONValue::Array(a) => Some(a),
            _ => None,
        }
    }

    /// The fields of an `Object` value, in insertion order, and `None` on any
    /// other variant.
    pub fn as_object(&self) -> (r: Option<&Vec<(String, JSONValue)>>)
        ensures
            match *self {
                JSONValue::Object(ref o) => r == Some(o),
                _ => r is None,
            },
    {
        match self {
            JSONValue::Object(o) => Some(o),
            _ => None,
        }
    }

    /// The element at `index` of an `Array` value; `None` on any other variant
    /// or out of range.
    pub fn at(&self, index: usize) -> (r: Option<&JSONValue>)
        ensures
            match *self {
                JSONValue::Array(ref a) => {
                    if index < a.len() {
                        r == Some(&a[index as int])
                    } else {
                        r is None
                    }
                },
                _ => r is None,
            },
    {
        match self {
            JSONValue::Array(a) => {
                if index < a.len() {
                    Some(&a[index])
                } else {
                    None
                }
            },
            _ => None,
        }
    }
}

/// Looking a key up finds its first binding, if there is one.
pub proof fn lemma_assoc_lookup_shape(m: Seq<(Seq<char>, SpecValue)>, k: Seq<char>)
    ensures
        0 <= find_key(m, k) <= m.len(),
        forall|t: int| 0 <= t < find_key(m, k) ==> (#[trigger] m[t]).0 != k,
        find_key(m, k) < m.len() ==> m[find_key(m, k)].0 == k,
        assoc_lookup(m, k) == (if find_key(m, k) < m.len() {
            Some(m[find_key(m, k)].1)
        } else {
            None::<SpecValue>
        }),
    decreases m.len(),
{
    if m.len() > 0 && m[0].0 != k {
        lemma_assoc_lookup_shape(m.drop_first(), k);
        let j = find_key(m, k);
        assert(j == 1 + find_key(m.drop_first(), k));
        assert forall|t: int| 0 <= t < j implies (#[trigger] m[t]).0 != k by {
            if t >= 1 {
                assert(m[t] == m.drop_first()[t - 1]);
            }
        }
    }
}

impl JSONValue {
    /// The value bound to `key` in an `Object` value, and `None` on a missing
    /// key or any other variant.
    #[verifier::loop_isolation(false)]
    pub fn get(&self, key: &str) -> (r: Option<&JSONValue>)
        ensures
            match *self {
                JSONValue::Object(ref o) => match r {
                    Some(v) => assoc_lookup(model_fields(o@), key@) == Some(v.model()),
                    None => assoc_lookup(model_fields(o@), key@) is None,
                },
                _ => r is None,
            },
    {
        match self {
            JSONValue::Object(o) => {
                proof {
                    lemma_model_fields(o@);
                    lemma_assoc_lookup_shape(model_fields(o@), key@);
                }
                let ks = key.to_owned();
                let mut j: usize = 0;
                while j < o.len()
                    invariant
                        j <= o@.len(),
                        forall|t: int| 0 <= t < j ==> model_fields(o@)[t].0 != key@,
                    decreases o@.len() - j,
                {
                    if o[j].0 == ks {
                        proof {
                            assert(model_fields(o@)[j as int].0 == key@);
                            assert(find_key(model_fields(o@), key@) == j);
                        }
                        return Some(&o[j].1);
                    }
                    j = j + 1;
                }
                None
            },
            _ => None,
        }
    }
}

/// The canonical rendering of a value: `null`, `true`/`false`, a number's
/// literal text, text in double quotes with its contents written as they
/// are, and comma-and-space-joined brackets and braces.
pub open spec fn spec_render(v: SpecValue) -> Seq<char>
    decreases v,
{
    match v {
        SpecValue::Null => "null"@,
        SpecValue::Bool(b) => {
            if b {
                "true"@
            } else {
                "false"@
            }
        },
        SpecValue::Number(s) => s,
        SpecValue::Text(s) => "\""@ + s + "\""@,
        SpecValue::Array(items) => "["@ + spec_render_items(items) + "]"@,
        SpecValue::Object(entries) => "{"@ + spec_render_entries(entries) + "}"@,
    }
}

/// Array elements, rendered in order and joined with a comma and a space.
pub open spec fn spec_render_items(items: Seq<SpecValue>) -> Seq<char>
    decreases items,
{
    if items.len() == 0 {
        Seq::empty()
    } else if items.len() == 1 {
        spec_render(items[0])
    } else {
        spec_render_items(items.drop_last()) + ", "@ + spec_render(items.last())
    }
}

/// One object field: the quoted key, a colon and a space, the value.
pub open spec fn spec_render_entry(e: (Seq<char>, SpecValue)) -> Seq<char>
    decreases e,
{
    "\""@ + e.0 + "\": "@ + spec_render(e.1)
}

/// Object fields, rendered in order and joined with a comma and a space.
pub open spec fn spec_render_entries(entries: Seq<(Seq<char>, SpecValue)>) -> Seq<char>
    decreases entries,
{
    if entries.len() == 0 {
        Seq::empty()
    } else if entries.len() == 1 {
        spec_render_entry(entries[0])
    } else {
        spec_render_entries(entries.drop_last()) + ", "@ + spec_render_entry(entries.last())
    }
}

/// The fields of an object, rendered between braces.
#[verifier::loop_isolation(false)]
fn render_fields(o: &Vec<(String, JSONValue)>) -> (out: String)
    ensures
        out@ == "{"@ + spec_render_entries(model_fields(o@)) + "}"@,
    decreases o,
{
    proof {
        lemma_model_fields(o@);
    }
    let ghost entries = model_fields(o@);
    let mut out = String::from_str("{");
    let mut i: usize = 0;
    while i < o.len()
        invariant
            i <= o@.len(),
            out@ == "{"@ + spec_render_entries(entries.take(i as int)),
        decreases o@.len() - i,
    {
        if i > 0 {
            out.append(", ");
        }
        out.append("\"");
        out.append(o[i].0.as_str());
        out.append("\": ");
        let piece = o[i].1.to_text();
        out.append(piece.as_str());
        proof {
            assert(entries.take(i + 1).drop_last() =~= entries.take(i as int));
            assert(entries.take(i + 1).last() == entries[i as int]);
            assert(spec_render_entry(entries[i as int]) == "\""@ + o@[i as int].0@ + "\": "@
                + spec_render(o@[i as int].1.model()));
            if i == 0 {
                assert(out@ =~= "{"@ + spec_render_entries(entries.take(i + 1)));
            } else {
                assert(out@ =~= "{"@ + spec_render_entries(entries.take(i + 1)));
            }
        }
        i = i + 1;
    }
    out.append("}");
    proof {
        assert(entries.take(o@.len() as int) =~= entries);
    }
    out
}

impl JSONValue {
    /// Render this value as text, exactly as `spec_render` says: `null`,
    /// `true`/`false`, a number's literal text, quoted text, and
    /// comma-and-space-joined containers.
    #[verifier::loop_isolation(false)]
    pub fn to_text(&self) -> (out: String)
        ensures
            out@ == spec_render(self.model()),
        decreases self,
    {
        match self {
            JSONValue::Null => String::from_str("null"),
            JSONValue::Bool(b) => {
                if *b {
                    String::from_str("true")
                } else {
                    String::from_str("false")
                }
            },
            JSONValue::Number(s) => s.clone(),
            JSONValue::Text(s) => {
                let mut out = String::from_str("\"");
                out.append(s.as_str());
                out.append("\"");
                out
            },
            JSONValue::Array(a) => {
                proof {
                    lemma_model_elems(a@);
                }
                let ghost items = model_elems(a@);
                let mut out = String::from_str("[");
                let mut i: usize = 0;
                while i < a.len()
                    invariant
                        i <= a@.len(),
                        out@ == "["@ + spec_render_items(items.take(i as int)),
                    decreases a@.len() - i,
                {
                    if i > 0 {
                        out.append(", ");
                    }
                    let piece = a[i].to_text();
                    out.append(piece.as_str());
                    proof {
                        assert(items.take(i + 1).drop_last() =~= items.take(i as int));
                        assert(items.take(i + 1).last() == items[i as int]);
                        assert(out@ =~= "["@ + spec_render_items(items.take(i + 1)));
                    }
                    i = i + 1;
                }
                out.append("]");
                proof {
                    assert(items.take(a@.len() as int) =~= items);
                }
                out
            },
            JSONValue::Object(o) => render_fields(o),
        }
    }
}

impl JSONValue {
    /// Overwrite the element at `index` of an `Array` value; reports whether
    /// anything changed, and changes nothing on any other variant or out of
    /// range.
    pub fn set_at(&mut self, index: usize, v: JSONValue) -> (r: bool)
        ensures
            match *old(self) {
                JSONValue::Array(ref a) => {
                    if index < a@.len() {
                        r && final(self).model() == SpecValue::Array(
                            model_elems(a@).update(index as int, v.model()),
                        )
                    } else {
                        !r && *final(self) == *old(self)
                    }
                },
                _ => !r && *final(self) == *old(self),
            },
    {
        match self {
            JSONValue::Array(a) => {
                if index < a.len() {
                    proof {
                        lemma_model_elems(a@);
                        lemma_model_elems(a@.update(index as int, v));
                    }
                    let ghost before = a@;
                    a.set(index, v);
                    proof {
                        assert(model_elems(a@) =~= model_elems(before).update(
                            index as int,
                            a@[index as int].model(),
                        ));
                    }
                    true
                } else {
                    false
                }
            },
            _ => false,
        }
    }

    /// Bind `key` in an `Object` value, overwriting its first binding in
    /// place or appending one; reports whether anything changed, and changes
    /// nothing on any other variant.
    pub fn set_field(&mut self, key: &str, v: JSONValue) -> (r: bool)
        ensures
            match *old(self) {
                JSONValue::Object(ref o) => r && final(self).model() == SpecValue::Object(
                    assoc_upsert(model_fields(o@), key@, v.model()),
                ),
                _ => !r && *final(self) == *old(self),
            },
    {
        match self {
            JSONValue::Object(o) => {
                upsert_field(o, key.to_owned(), v);
                true
            },
            _ => false,
        }
    }
}

/// A document root kept as an object: a collection of fields built
/// programmatically, rendered the way an `Object` value is.
#[derive(Debug)]
pub struct JSON {
    fields: Vec<(String, JSONValue)>,
}

impl JSON {
    /// The association list this document stands for.
    pub closed spec fn model(self) -> Seq<(Seq<char>, SpecValue)> {
        model_fields(self.fields@)
    }

    /// A document made of the given fields.
    pub(crate) fn from_fields(fields: Vec<(String, JSONValue)>) -> (r: JSON)
        ensures
            r.model() == model_fields(fields@),
    {
        JSON { fields }
    }

    /// An empty document.
    pub fn new() -> (r: JSON)
        ensures
            r.model() == Seq::<(Seq<char>, SpecValue)>::empty(),
    {
        JSON { fields: Vec::new() }
    }

    /// Bind `key`, overwriting its first binding in place or appending one.
    pub fn add_field(&mut self, key: &str, value: JSONValue)
        ensures
            final(self).model() == assoc_upsert(old(self).model(), key@, value.model()),
    {
        upsert_field(&mut self.fields, key.to_owned(), value);
    }

    /// The value bound to `key`, if any.
    #[verifier::loop_isolation(false)]
    pub fn get(&self, key: &str) -> (r: Option<&JSONValue>)
        ensures
            match r {
                Some(v) => assoc_lookup(self.model(), key@) == Some(v.model()),
                None => assoc_lookup(self.model(), key@) is None,
            },
    {
        proof {
            lemma_model_fields(self.fields@);
            lemma_assoc_lookup_shape(model_fields(self.fields@), key@);
        }
        let ks = key.to_owned();
        let mut j: usize = 0;
        while j < self.fields.len()
            invariant
                j <= self.fields@.len(),
                forall|t: int| 0 <= t < j ==> model_fields(self.fields@)[t].0 != key@,
            decreases self.fields@.len() - j,
        {
            if self.fields[j].0 == ks {
                proof {
                    assert(model_fields(self.fields@)[j as int].0 == key@);
                    assert(find_key(model_fields(self.fields@), key@) == j);
                }
                return Some(&self.fields[j].1);
            }
            j = j + 1;
        }
        None
    }

    /// Render the document as text, the way an object is rendered.
    pub fn to_text(&self) -> (out: String)
        ensures
            out@ == spec_render(SpecValue::Object(self.model())),
    {
        render_fields(&self.fields)
    }
}

impl Default for JSON {
    /// An empty document.
    fn default() -> (r: JSON)
        ensures
            r.model() == Seq::<(Seq<char>, SpecValue)>::empty(),
    {
        JSON::new()
    }
}

/// No character of `s` can end a rendered string early: no quote, no
/// backslash.
pub open spec fn clean_text(s: Seq<char>) -> bool {
    forall|i: int| 0 <= i < s.len() ==> (#[trigger] s[i]) != '"' && s[i] != '\\'
}

/// The keys of an association list are pairwise distinct.
pub open spec fn keys_unique(entries: Seq<(Seq<char>, SpecValue)>) -> bool {
    forall|i: int, j: int|
        0 <= i < j < entries.len() ==> (#[trigger] entries[i]).0 != (#[trigger] entries[j]).0
}

impl SpecValue {
    /// A well-formed value: every numeric literal matches the numeric
    /// grammar, and every object's keys are unique.  Parsing only ever
    /// yields well-formed values.
    pub open spec fn wf(self) -> bool
        decreases self,
    {
        match self {
            SpecValue::Null => true,
            SpecValue::Bool(_) => true,
            SpecValue::Number(s) => is_number_literal(s),
            SpecValue::Text(_) => true,
            SpecValue::Array(items) => wf_items(items),
            SpecValue::Object(entries) => keys_unique(entries) && wf_entries(entries),
        }
    }

    /// Rendering loses nothing: no text contents or key holds a quote or a
    /// backslash, anywhere in the tree.
    pub open spec fn render_safe(self) -> bool
        decreases self,
    {
        match self {
            SpecValue::Null => true,
            SpecValue::Bool(_) => true,
            SpecValue::Number(_) => true,
            SpecValue::Text(s) => clean_text(s),
            SpecValue::Array(items) => safe_items(items),
            SpecValue::Object(entries) => safe_entries(entries),
        }
    }
}

/// Each of a sequence of values is well formed.
pub open spec fn wf_items(items: Seq<SpecValue>) -> bool
    decreases items,
{
    if items.len() == 0 {
        true
    } else {
        wf_items(items.drop_last()) && items.last().wf()
    }
}

/// Each value of an association list is well formed.
pub open spec fn wf_entries(entries: Seq<(Seq<char>, SpecValue)>) -> bool
    decreases entries,
{
    if entries.len() == 0 {
        true
    } else {
        wf_entries(entries.drop_last()) && entries.last().1.wf()
    }
}

/// Each of a sequence of values renders safely.
pub open spec fn safe_items(items: Seq<SpecValue>) -> bool
    decreases items,
{
    if items.len() == 0 {
        true
    } else {
        safe_items(items.drop_last()) && items.last().render_safe()
    }
}

/// Each key of an association list is clean and each value renders safely.
pub open spec fn safe_entries(entries: Seq<(Seq<char>, SpecValue)>) -> bool
    decreases entries,
{
    if entries.len() == 0 {
        true
    } else {
        safe_entries(entries.drop_last()) && clean_text(entries.last().0)
            && entries.last().1.render_safe()
    }
}

pub broadcast proof fn lemma_wf_items(items: Seq<SpecValue>)
    ensures
        #[trigger] wf_items(items) <==> (forall|i: int|
            0 <= i < items.len() ==> (#[trigger] items[i]).wf()),
    decreases items.len(),
{
    if items.len() > 0 {
        lemma_wf_items(items.drop_last());
        assert forall|i: int| 0 <= i < items.len() - 1 implies items[i] == items.drop_last()[i] by {}
    }
}

pub broadcast proof fn lemma_wf_entries(entries: Seq<(Seq<char>, SpecValue)>)
    ensures
        #[trigger] wf_entries(entries) <==> (forall|i: int|
            0 <= i < entries.len() ==> (#[trigger] entries[i]).1.wf()),
    decreases entries.len(),
{
    if entries.len() > 0 {
        lemma_wf_entries(entries.drop_last());
        assert forall|i: int|
            0 <= i < entries.len() - 1 implies entries[i] == entries.drop_last()[i] by {}
    }
}

pub broadcast proof fn lemma_safe_items(items: Seq<SpecValue>)
    ensures
        #[trigger] safe_items(items) <==> (forall|i: int|
            0 <= i < items.len() ==> (#[trigger] items[i]).render_safe()),
    decreases items.len(),
{
    if items.len() > 0 {
        lemma_safe_items(items.drop_last());
        assert forall|i: int| 0 <= i < items.len() - 1 implies items[i] == items.drop_last()[i] by {}
    }
}

pub broadcast proof fn lemma_safe_entries(entries: Seq<(Seq<char>, SpecValue)>)
    ensures
        #[trigger] safe_entries(entries) <==> (forall|i: int|
            0 <= i < entries.len() ==> clean_text((#[trigger] entries[i]).0)
                && entries[i].1.render_safe()),
    decreases entries.len(),
{
    if entries.len() > 0 {
        lemma_safe_entries(entries.drop_last());
        assert forall|i: int|
            0 <= i < entries.len() - 1 implies entries[i] == entries.drop_last()[i] by {}
    }
}

} // verus!
