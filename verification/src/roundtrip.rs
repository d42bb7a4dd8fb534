//! The structural round trip: rendering a well-formed value whose strings
//! hold no quote and no backslash, and parsing the rendering back, yields
//! the value itself.  The proof walks the rendered text token by token,
//! showing that the builder pushes exactly the rendered value.

use vstd::prelude::*;

use crate::lexer::SpecNext;
use crate::lexer::SpecToken;
use crate::lexer::classify_run;
use crate::lexer::ends_run;
use crate::lexer::is_structural;
use crate::lexer::is_ws;
use crate::lexer::lemma_number_char_not_ends_run;
use crate::lexer::lemma_run_end_exact;
use crate::lexer::lemma_scan_string_exact;
use crate::lexer::lemma_false_run_not_number;
use crate::lexer::lemma_null_run_not_number;
use crate::lexer::lemma_true_run_not_number;
use crate::lexer::run_end;
use crate::lexer::scan_string;
use crate::lexer::spec_next_tok;
use crate::numbers::lemma_number_literal_chars;
use crate::parser::Mode;
use crate::parser::SpecFrame;
use crate::parser::in_key_position;
use crate::parser::init_state;
use crate::parser::push_value;
use crate::parser::spec_finish;
use crate::parser::spec_object_of;
use crate::parser::spec_parse;
use crate::parser::spec_parse_at;
use crate::parser::spec_step;
use crate::parser::st_wf;
use crate::value::SpecValue;
use crate::value::clean_text;
use crate::value::keys_unique;
use crate::value::lemma_assoc_upsert_shape;
use crate::value::lemma_safe_entries;
use crate::value::safe_entries;
use crate::value::safe_items;
use crate::value::lemma_safe_items;
use crate::value::lemma_wf_entries;
use crate::value::lemma_wf_items;
use crate::value::spec_render;
use crate::value::spec_render_entries;
use crate::value::spec_render_entry;
use crate::value::spec_render_items;
use crate::value::wf_entries;
use crate::value::wf_items;

verus! {

/// The keys of an association list, in order.
pub open spec fn keys_of(entries: Seq<(Seq<char>, SpecValue)>) -> Seq<Seq<char>> {
    Seq::new(entries.len(), |i: int| entries[i].0)
}

/// The values of an association list, in order.
pub open spec fn vals_of(entries: Seq<(Seq<char>, SpecValue)>) -> Seq<SpecValue> {
    Seq::new(entries.len(), |i: int| entries[i].1)
}

/// Resolving unique keys against their values gives back exactly the
/// zipped association list.
pub proof fn lemma_object_of_zip(entries: Seq<(Seq<char>, SpecValue)>)
    requires
        keys_unique(entries),
    ensures
        spec_object_of(keys_of(entries), vals_of(entries)) == entries,
    decreases entries.len(),
{
    let kk = keys_of(entries);
    let vv = vals_of(entries);
    if entries.len() == 0 {
        assert(spec_object_of(kk, vv) =~= entries);
    } else {
        let front = entries.drop_last();
        assert(kk.drop_last() =~= keys_of(front));
        assert(vv.drop_last() =~= vals_of(front));
        lemma_object_of_zip(front);
        let k = entries.last().0;
        let v = entries.last().1;
        lemma_assoc_upsert_shape(front, k, v);
        assert forall|t: int| 0 <= t < front.len() implies (#[trigger] front[t]).0 != k by {
            assert(entries[t] == front[t]);
        }
        assert(crate::value::find_key(front, k) == front.len());
        assert(spec_object_of(kk, vv) == front.push(entries.last()));
        assert(front.push(entries.last()) =~= entries);
    }
}

/// Splitting the joined rendering of two or more items at the first comma.
pub proof fn lemma_render_items_split_first(items: Seq<SpecValue>)
    requires
        items.len() >= 2,
    ensures
        spec_render_items(items) == spec_render(items[0]) + ", "@ + spec_render_items(
            items.drop_first(),
        ),
    decreases items.len(),
{
    if items.len() == 2 {
        assert(items.drop_last()[0] == items[0]);
        assert(items.drop_first()[0] == items[1]);
        assert(spec_render_items(items.drop_last()) == spec_render(items[0]));
        assert(spec_render_items(items.drop_first()) == spec_render(items[1]));
    } else {
        lemma_render_items_split_first(items.drop_last());
        assert(items.drop_last()[0] == items[0]);
        assert(items.drop_last().drop_first() =~= items.drop_first().drop_last());
        assert(items.drop_first().last() == items.last());
        assert(spec_render_items(items.drop_first()) == spec_render_items(
            items.drop_first().drop_last(),
        ) + ", "@ + spec_render(items.last()));
        assert((spec_render(items[0]) + ", "@ + spec_render_items(items.drop_first().drop_last()))
            + ", "@ + spec_render(items.last()) =~= spec_render(items[0]) + ", "@ + (
        spec_render_items(items.drop_first().drop_last()) + ", "@ + spec_render(items.last())));
    }
}

/// Splitting the joined rendering of two or more fields at the first comma.
pub proof fn lemma_render_entries_split_first(entries: Seq<(Seq<char>, SpecValue)>)
    requires
        entries.len() >= 2,
    ensures
        spec_render_entries(entries) == spec_render_entry(entries[0]) + ", "@
            + spec_render_entries(entries.drop_first()),
    decreases entries.len(),
{
    if entries.len() == 2 {
        assert(entries.drop_last()[0] == entries[0]);
        assert(entries.drop_first()[0] == entries[1]);
        assert(spec_render_entries(entries.drop_last()) == spec_render_entry(entries[0]));
        assert(spec_render_entries(entries.drop_first()) == spec_render_entry(entries[1]));
    } else {
        lemma_render_entries_split_first(entries.drop_last());
        assert(entries.drop_last()[0] == entries[0]);
        assert(entries.drop_last().drop_first() =~= entries.drop_first().drop_last());
        assert(entries.drop_first().last() == entries.last());
        assert(spec_render_entries(entries.drop_first()) == spec_render_entries(
            entries.drop_first().drop_last(),
        ) + ", "@ + spec_render_entry(entries.last()));
        assert((spec_render_entry(entries[0]) + ", "@ + spec_render_entries(
            entries.drop_first().drop_last(),
        )) + ", "@ + spec_render_entry(entries.last()) =~= spec_render_entry(entries[0]) + ", "@ + (
        spec_render_entries(entries.drop_first().drop_last()) + ", "@ + spec_render_entry(
            entries.last(),
        )));
    }
}

/// What follows in the text when the items from index `k` on, then the
/// closing bracket, remain to be read.
pub open spec fn items_tail(items: Seq<SpecValue>, k: int) -> Seq<char>
    decreases items.len() - k,
{
    if k < 0 || k >= items.len() {
        "]"@
    } else if k == items.len() - 1 {
        spec_render(items[k]) + "]"@
    } else {
        spec_render(items[k]) + ", "@ + items_tail(items, k + 1)
    }
}

/// What follows in the text when the fields from index `k` on, then the
/// closing brace, remain to be read.
pub open spec fn entries_tail(entries: Seq<(Seq<char>, SpecValue)>, k: int) -> Seq<char>
    decreases entries.len() - k,
{
    if k < 0 || k >= entries.len() {
        "}"@
    } else if k == entries.len() - 1 {
        spec_render_entry(entries[k]) + "}"@
    } else {
        spec_render_entry(entries[k]) + ", "@ + entries_tail(entries, k + 1)
    }
}

/// The remaining-items text, from the start, is the joined items and the
/// closing bracket.
pub proof fn lemma_items_tail_eq(items: Seq<SpecValue>, k: int)
    requires
        0 <= k <= items.len(),
    ensures
        items_tail(items, k) == spec_render_items(items.skip(k)) + "]"@,
    decreases items.len() - k,
{
    if k == items.len() {
        assert(items.skip(k) =~= Seq::<SpecValue>::empty());
        assert(Seq::<char>::empty() + "]"@ =~= "]"@);
    } else if k == items.len() - 1 {
        assert(items.skip(k) =~= seq![items[k]]);
        assert(items.skip(k)[0] == items[k]);
        assert(spec_render_items(items.skip(k)) == spec_render(items[k]));
    } else {
        lemma_items_tail_eq(items, k + 1);
        lemma_render_items_split_first(items.skip(k));
        assert(items.skip(k)[0] == items[k]);
        assert(items.skip(k).drop_first() =~= items.skip(k + 1));
        assert((spec_render(items[k]) + ", "@ + (spec_render_items(items.skip(k + 1)) + "]"@))
            =~= (spec_render(items[k]) + ", "@ + spec_render_items(items.skip(k + 1))) + "]"@);
    }
}

/// The remaining-fields text, from the start, is the joined fields and the
/// closing brace.
pub proof fn lemma_entries_tail_eq(entries: Seq<(Seq<char>, SpecValue)>, k: int)
    requires
        0 <= k <= entries.len(),
    ensures
        entries_tail(entries, k) == spec_render_entries(entries.skip(k)) + "}"@,
    decreases entries.len() - k,
{
    if k == entries.len() {
        assert(entries.skip(k) =~= Seq::<(Seq<char>, SpecValue)>::empty());
        assert(Seq::<char>::empty() + "}"@ =~= "}"@);
    } else if k == entries.len() - 1 {
        assert(entries.skip(k) =~= seq![entries[k]]);
        assert(entries.skip(k)[0] == entries[k]);
        assert(spec_render_entries(entries.skip(k)) == spec_render_entry(entries[k]));
    } else {
        lemma_entries_tail_eq(entries, k + 1);
        lemma_render_entries_split_first(entries.skip(k));
        assert(entries.skip(k)[0] == entries[k]);
        assert(entries.skip(k).drop_first() =~= entries.skip(k + 1));
        assert((spec_render_entry(entries[k]) + ", "@ + (spec_render_entries(entries.skip(k + 1))
            + "}"@)) =~= (spec_render_entry(entries[k]) + ", "@ + spec_render_entries(
            entries.skip(k + 1),
        )) + "}"@);
    }
}

/// A concatenation embedded in a text splits into its embedded parts.
pub proof fn lemma_embed_split(s: Seq<char>, i: int, a: Seq<char>, b: Seq<char>)
    requires
        0 <= i,
        i + a.len() + b.len() <= s.len(),
        s.subrange(i, i + a.len() + b.len()) == a + b,
    ensures
        s.subrange(i, i + a.len() as int) == a,
        s.subrange(i + a.len(), i + a.len() + b.len()) == b,
{
    let w = s.subrange(i, i + a.len() + b.len());
    assert forall|t: int| 0 <= t < a.len() implies s.subrange(i, i + a.len() as int)[t] == a[t] by {
        assert(s.subrange(i, i + a.len() as int)[t] == s[i + t]);
        assert(w[t] == s[i + t]);
        assert((a + b)[t] == a[t]);
    }
    assert(s.subrange(i, i + a.len() as int) =~= a);
    assert forall|t: int|
        0 <= t < b.len() implies s.subrange(i + a.len(), i + a.len() + b.len())[t] == b[t] by {
        assert(s.subrange(i + a.len(), i + a.len() + b.len())[t] == s[i + a.len() + t]);
        assert(w[a.len() + t] == s[i + a.len() + t]);
        assert((a + b)[a.len() + t] == b[t]);
    }
    assert(s.subrange(i + a.len(), i + a.len() + b.len()) =~= b);
}

/// An embedded unquoted run, delimited by a structural character or the end
/// of the input, reads as one token: its classification.
pub proof fn lemma_next_tok_run(s: Seq<char>, i: int, x: Seq<char>)
    requires
        0 <= i,
        i + x.len() <= s.len(),
        s.subrange(i, i + x.len() as int) == x,
        x.len() > 0,
        forall|t: int| 0 <= t < x.len() ==> !ends_run(#[trigger] x[t]),
        classify_run(x) is Some,
        i + x.len() == s.len() || is_structural(s[i + x.len()]),
    ensures
        spec_next_tok(s, i) == SpecNext::Tok(classify_run(x)->Some_0, i + x.len() as int),
{
    assert forall|t: int| i <= t < i + x.len() implies !ends_run(#[trigger] s[t]) by {
        assert(s.subrange(i, i + x.len() as int)[t - i] == s[t]);
        assert(x[t - i] == s[t]);
    }
    assert(s[i] == x[0]);
    lemma_run_end_exact(s, i, i + x.len() as int);
    assert(run_end(s, i) == i + x.len());
}

/// An embedded quoted string with clean contents reads as one text token.
pub proof fn lemma_next_tok_text(s: Seq<char>, i: int, x: Seq<char>)
    requires
        0 <= i,
        i + x.len() + 2 <= s.len(),
        s.subrange(i, i + x.len() + 2) == "\""@ + x + "\""@,
        clean_text(x),
    ensures
        spec_next_tok(s, i) == SpecNext::Tok(SpecToken::Text(x), i + x.len() + 2),
{
    reveal_strlit("\"");
    lemma_embed_split(s, i, "\""@ + x, "\""@);
    lemma_embed_split(s, i, "\""@, x);
    assert(s[i] == '"') by {
        assert(s.subrange(i, i + 1)[0] == s[i]);
    }
    assert(s[i + 1 + x.len()] == '"') by {
        assert(s.subrange(i + ("\""@ + x).len(), i + ("\""@ + x).len() + 1)[0] == s[i + 1
            + x.len()]);
    }
    assert forall|t: int| i + 1 <= t < i + 1 + x.len() implies (#[trigger] s[t]) != '"' && s[t]
        != '\\' by {
        assert(s.subrange(i + 1, i + 1 + x.len() as int)[t - i - 1] == s[t]);
        assert(x[t - i - 1] == s[t]);
    }
    lemma_scan_string_exact(s, i + 1, i + 1 + x.len() as int);
    assert(s.subrange(i + 1, i + 1 + x.len() as int) == x);
}

/// The rendering of a scalar value classifies as its own token.
pub proof fn lemma_classify_scalar(v: SpecValue)
    requires
        v.wf(),
        v is Null || v is Bool || v is Number,
    ensures
        spec_render(v).len() > 0,
        forall|t: int|
            0 <= t < spec_render(v).len() ==> !ends_run(#[trigger] spec_render(v)[t]),
        classify_run(spec_render(v)) == Some(scalar_token(v)),
{
    match v {
        SpecValue::Null => {
            reveal_strlit("null");
            let x = "null"@;
            assert(x.len() == 4 && x[0] == 'n' && x[1] == 'u' && x[2] == 'l' && x[3] == 'l');
            assert forall|t: int| 0 <= t < x.len() implies !ends_run(#[trigger] x[t]) by {}
            assert(!crate::lexer::is_true_run(x) && !crate::lexer::is_false_run(x));
            assert(crate::lexer::is_null_run(x));
        },
        SpecValue::Bool(b) => {
            if b {
                reveal_strlit("true");
                let x = "true"@;
                assert(x.len() == 4 && x[0] == 't' && x[1] == 'r' && x[2] == 'u' && x[3] == 'e');
                assert forall|t: int| 0 <= t < x.len() implies !ends_run(#[trigger] x[t]) by {}
                assert(crate::lexer::is_true_run(x));
            } else {
                reveal_strlit("false");
                let x = "false"@;
                assert(x.len() == 5 && x[0] == 'f' && x[1] == 'a' && x[2] == 'l' && x[3] == 's'
                    && x[4] == 'e');
                assert forall|t: int| 0 <= t < x.len() implies !ends_run(#[trigger] x[t]) by {}
                assert(!crate::lexer::is_true_run(x));
                assert(crate::lexer::is_false_run(x));
            }
        },
        SpecValue::Number(x) => {
            lemma_number_literal_chars(x);
            assert forall|t: int| 0 <= t < x.len() implies !ends_run(#[trigger] x[t]) by {
                lemma_number_char_not_ends_run(x[t]);
            }
            if crate::lexer::is_true_run(x) {
                lemma_true_run_not_number(x);
            }
            if crate::lexer::is_false_run(x) {
                lemma_false_run_not_number(x);
            }
            if crate::lexer::is_null_run(x) {
                lemma_null_run_not_number(x);
            }
        },
        _ => {},
    }
}

/// The token a scalar value renders to.
pub open spec fn scalar_token(v: SpecValue) -> SpecToken {
    match v {
        SpecValue::Null => SpecToken::Null,
        SpecValue::Bool(b) => SpecToken::Bool(b),
        SpecValue::Number(x) => SpecToken::Number(x),
        _ => SpecToken::Null,
    }
}

/// Replacing the innermost scope of a well-formed stack with another
/// non-root scope keeps the stack well formed.
proof fn lemma_st_wf_retop(st: Seq<SpecFrame>, f: SpecFrame)
    requires
        st_wf(st),
        st.len() >= 2,
        !(f is Root),
    ensures
        st_wf(st.update(st.len() - 1, f)),
{
    let st2 = st.update(st.len() - 1, f);
    assert(st2[0] == st[0]);
    assert forall|t: int| 1 <= t < st2.len() implies !((#[trigger] st2[t]) is Root) by {
        if t < st.len() - 1 {
            assert(st2[t] == st[t]);
        }
    }
}

/// Handing a value to the innermost scope keeps the stack well formed.
proof fn lemma_st_wf_push_value(st: Seq<SpecFrame>, v: SpecValue)
    requires
        st_wf(st),
    ensures
        st_wf(push_value(st, v)),
{
    let st2 = push_value(st, v);
    assert(st2.len() == st.len());
    if st.len() >= 2 {
        assert(st2[0] == st[0]);
        assert forall|t: int| 1 <= t < st2.len() implies !((#[trigger] st2[t]) is Root) by {
            if t < st.len() - 1 {
                assert(st2[t] == st[t]);
            } else {
                assert(!(st[t] is Root));
            }
        }
    } else {
        assert(st2[0] is Root);
    }
}

/// Opening a new scope keeps the stack well formed.
proof fn lemma_st_wf_open(st: Seq<SpecFrame>, f: SpecFrame)
    requires
        st_wf(st),
        !(f is Root),
    ensures
        st_wf(st.push(f)),
{
    let st2 = st.push(f);
    assert(st2[0] == st[0]);
    assert forall|t: int| 1 <= t < st2.len() implies !((#[trigger] st2[t]) is Root) by {
        if t < st.len() {
            assert(st2[t] == st[t]);
        }
    }
}

/// Reading the rendering of one value, from a state whose innermost scope
/// can accept a value, hands exactly that value to the scope.
pub proof fn lemma_parse_render(s: Seq<char>, i: int, st: Seq<SpecFrame>, v: SpecValue)
    requires
        st_wf(st),
        !in_key_position(st.last()),
        v.wf(),
        v.render_safe(),
        0 <= i,
        i + spec_render(v).len() <= s.len(),
        s.subrange(i, i + spec_render(v).len() as int) == spec_render(v),
        i + spec_render(v).len() == s.len() || is_structural(s[i + spec_render(v).len()]),
    ensures
        spec_parse_at(s, i, st) == spec_parse_at(s, i + spec_render(v).len(), push_value(st, v)),
    decreases v, 0int,
{
    broadcast use lemma_wf_items, lemma_safe_items, lemma_wf_entries, lemma_safe_entries;

    let r = spec_render(v);
    let l = r.len() as int;
    if v is Null || v is Bool || v is Number {
        lemma_classify_scalar(v);
        lemma_next_tok_run(s, i, r);
        assert(spec_next_tok(s, i) == SpecNext::Tok(scalar_token(v), i + l));
        assert(spec_step(st, scalar_token(v)) == Ok::<Seq<SpecFrame>, crate::errors::SpecErr>(
            push_value(st, v),
        ));
    } else {
        match v {
            SpecValue::Text(x) => {
                reveal_strlit("\"");
                assert(l == x.len() + 2);
                lemma_next_tok_text(s, i, x);
                assert(spec_step(st, SpecToken::Text(x)) == Ok::<
                    Seq<SpecFrame>,
                    crate::errors::SpecErr,
                >(push_value(st, v)));
            },
            SpecValue::Array(items) => {
                reveal_strlit("[");
                reveal_strlit("]");
                lemma_items_tail_eq(items, 0);
                assert(items.skip(0) =~= items);
                let tail = items_tail(items, 0);
                assert(r =~= "["@ + tail);
                lemma_embed_split(s, i, "["@, tail);
                assert(s[i] == '[') by {
                    assert(s.subrange(i, i + 1)[0] == s[i]);
                }
                assert(spec_next_tok(s, i) == SpecNext::Tok(SpecToken::LBracket, i + 1));
                let st2 = st.push(SpecFrame::Arr(Seq::empty()));
                assert(spec_step(st, SpecToken::LBracket) == Ok::<
                    Seq<SpecFrame>,
                    crate::errors::SpecErr,
                >(st2));
                lemma_st_wf_open(st, SpecFrame::Arr(Seq::empty()));
                assert(Seq::<SpecValue>::empty() =~= items.take(0));
                lemma_parse_render_items(s, i + 1, st2, items, 0);
                assert(st2.drop_last() =~= st);
                assert(l == 1 + tail.len());
            },
            SpecValue::Object(entries) => {
                reveal_strlit("{");
                reveal_strlit("}");
                lemma_entries_tail_eq(entries, 0);
                assert(entries.skip(0) =~= entries);
                let tail = entries_tail(entries, 0);
                assert(r =~= "{"@ + tail);
                lemma_embed_split(s, i, "{"@, tail);
                assert(s[i] == '{') by {
                    assert(s.subrange(i, i + 1)[0] == s[i]);
                }
                assert(spec_next_tok(s, i) == SpecNext::Tok(SpecToken::LBrace, i + 1));
                let f = SpecFrame::Obj(Seq::empty(), Seq::empty(), Mode::ExpectKey);
                let st2 = st.push(f);
                assert(spec_step(st, SpecToken::LBrace) == Ok::<
                    Seq<SpecFrame>,
                    crate::errors::SpecErr,
                >(st2));
                lemma_st_wf_open(st, f);
                assert(Seq::<Seq<char>>::empty() =~= keys_of(entries).take(0));
                assert(Seq::<SpecValue>::empty() =~= vals_of(entries).take(0));
                lemma_parse_render_entries(s, i + 1, st2, entries, 0, Mode::ExpectKey);
                assert(st2.drop_last() =~= st);
                assert(l == 1 + tail.len());
            },
            _ => {},
        }
    }
}

/// Reading the remaining items of an array, then its closing bracket, from
/// the scope that collects them, resolves the array into the scope around
/// it.
pub proof fn lemma_parse_render_items(
    s: Seq<char>,
    i: int,
    st: Seq<SpecFrame>,
    items: Seq<SpecValue>,
    k: int,
)
    requires
        st_wf(st),
        st.last() == SpecFrame::Arr(items.take(k)),
        wf_items(items),
        safe_items(items),
        0 <= k <= items.len(),
        0 <= i,
        i + items_tail(items, k).len() <= s.len(),
        s.subrange(i, i + items_tail(items, k).len() as int) == items_tail(items, k),
    ensures
        spec_parse_at(s, i, st) == spec_parse_at(
            s,
            i + items_tail(items, k).len(),
            push_value(st.drop_last(), SpecValue::Array(items)),
        ),
    decreases items, items.len() - k,
{
    broadcast use lemma_wf_items, lemma_safe_items;

    reveal_strlit("]");
    reveal_strlit(", ");
    let tail = items_tail(items, k);
    assert(st.len() >= 2) by {
        if st.len() == 1 {
            assert(st.last() == st[0]);
        }
    }
    if k == items.len() {
        assert(s[i] == ']') by {
            assert(s.subrange(i, i + tail.len() as int)[0] == s[i]);
        }
        assert(spec_next_tok(s, i) == SpecNext::Tok(SpecToken::RBracket, i + 1));
        assert(items.take(k) =~= items);
        assert(spec_step(st, SpecToken::RBracket) == Ok::<Seq<SpecFrame>, crate::errors::SpecErr>(
            push_value(st.drop_last(), SpecValue::Array(items)),
        ));
    } else {
        let piece = spec_render(items[k]);
        let p = piece.len() as int;
        assert(items[k].wf() && items[k].render_safe());
        if k == items.len() - 1 {
            lemma_embed_split(s, i, piece, "]"@);
            assert(s[i + p] == ']') by {
                assert(s.subrange(i + p, i + p + 1)[0] == s[i + p]);
            }
            lemma_parse_render(s, i, st, items[k]);
            let st2 = push_value(st, items[k]);
            assert(items.take(k).push(items[k]) =~= items.take(k + 1));
            assert(st2.last() == SpecFrame::Arr(items.take(k + 1)));
            lemma_st_wf_push_value(st, items[k]);
            lemma_parse_render_items(s, i + p, st2, items, k + 1);
            assert(st2.drop_last() =~= st.drop_last());
            assert(tail.len() == p + 1);
        } else {
            let rest = items_tail(items, k + 1);
            assert(tail =~= piece + (", "@ + rest));
            lemma_embed_split(s, i, piece, ", "@ + rest);
            lemma_embed_split(s, i + p, ", "@, rest);
            assert(s[i + p] == ',') by {
                assert(s.subrange(i + p, i + p + 2)[0] == s[i + p]);
            }
            assert(s[i + p + 1] == ' ') by {
                assert(s.subrange(i + p, i + p + 2)[1] == s[i + p + 1]);
            }
            lemma_parse_render(s, i, st, items[k]);
            let st2 = push_value(st, items[k]);
            assert(items.take(k).push(items[k]) =~= items.take(k + 1));
            assert(st2.last() == SpecFrame::Arr(items.take(k + 1)));
            lemma_st_wf_push_value(st, items[k]);
            assert(spec_next_tok(s, i + p) == SpecNext::Tok(SpecToken::Comma, i + p + 1));
            assert(spec_step(st2, SpecToken::Comma) == Ok::<Seq<SpecFrame>, crate::errors::SpecErr>(
                st2,
            ));
            assert(spec_parse_at(s, i + p, st2) == spec_parse_at(s, i + p + 1, st2));
            assert(is_ws(s[i + p + 1]));
            assert(spec_next_tok(s, i + p + 1) == spec_next_tok(s, i + p + 2));
            assert(spec_parse_at(s, i + p + 1, st2) == spec_parse_at(s, i + p + 2, st2));
            lemma_parse_render_items(s, i + p + 2, st2, items, k + 1);
            assert(st2.drop_last() =~= st.drop_last());
            assert(tail.len() == p + 2 + rest.len());
        }
    }
}

/// Reading the remaining fields of an object, then its closing brace, from
/// the scope that collects them, resolves the object into the scope around
/// it.
pub proof fn lemma_parse_render_entries(
    s: Seq<char>,
    i: int,
    st: Seq<SpecFrame>,
    entries: Seq<(Seq<char>, SpecValue)>,
    k: int,
    m: Mode,
)
    requires
        st_wf(st),
        st.last() == SpecFrame::Obj(keys_of(entries).take(k), vals_of(entries).take(k), m),
        k < entries.len() ==> m == Mode::ExpectKey,
        keys_unique(entries),
        wf_entries(entries),
        safe_entries(entries),
        0 <= k <= entries.len(),
        0 <= i,
        i + entries_tail(entries, k).len() <= s.len(),
        s.subrange(i, i + entries_tail(entries, k).len() as int) == entries_tail(entries, k),
    ensures
        spec_parse_at(s, i, st) == spec_parse_at(
            s,
            i + entries_tail(entries, k).len(),
            push_value(st.drop_last(), SpecValue::Object(entries)),
        ),
    decreases entries, entries.len() - k,
{
    broadcast use lemma_wf_entries, lemma_safe_entries;

    reveal_strlit("}");
    reveal_strlit(", ");
    reveal_strlit("\"");
    reveal_strlit("\": ");
    let tail = entries_tail(entries, k);
    let kk = keys_of(entries);
    let vv = vals_of(entries);
    assert(st.len() >= 2) by {
        if st.len() == 1 {
            assert(st.last() == st[0]);
        }
    }
    if k == entries.len() {
        assert(s[i] == '}') by {
            assert(s.subrange(i, i + tail.len() as int)[0] == s[i]);
        }
        assert(spec_next_tok(s, i) == SpecNext::Tok(SpecToken::RBrace, i + 1));
        assert(kk.take(k) =~= kk);
        assert(vv.take(k) =~= vv);
        lemma_object_of_zip(entries);
        assert(spec_step(st, SpecToken::RBrace) == Ok::<Seq<SpecFrame>, crate::errors::SpecErr>(
            push_value(st.drop_last(), SpecValue::Object(entries)),
        ));
    } else {
        let key = entries[k].0;
        let val = entries[k].1;
        assert(clean_text(key) && val.wf() && val.render_safe());
        let piece = spec_render_entry(entries[k]);
        let kl = key.len() as int;
        let vr = spec_render(val);
        let vl = vr.len() as int;
        let p = piece.len() as int;
        assert(p == kl + vl + 4);
        let after = if k == entries.len() - 1 {
            "}"@
        } else {
            ", "@ + entries_tail(entries, k + 1)
        };
        assert(tail =~= piece + after);
        lemma_embed_split(s, i, piece, after);
        assert(piece =~= ("\""@ + key) + ("\": "@ + vr));
        lemma_embed_split(s, i, "\""@ + key, "\": "@ + vr);
        lemma_embed_split(s, i + 1 + kl, "\": "@, vr);
        // The quoted key: its closing quote is the first character of the
        // colon piece.
        assert(s.subrange(i, i + kl + 2) =~= "\""@ + key + "\""@) by {
            assert forall|t: int|
                0 <= t < kl + 2 implies s.subrange(i, i + kl + 2)[t] == ("\""@ + key + "\""@)[t] by {
                assert(s.subrange(i, i + kl + 2)[t] == s[i + t]);
                if t < kl + 1 {
                    assert(s.subrange(i, i + 1 + kl)[t] == s[i + t]);
                    assert(("\""@ + key)[t] == ("\""@ + key + "\""@)[t]);
                } else {
                    assert(s.subrange(i + 1 + kl, i + 1 + kl + 3)[0] == s[i + 1 + kl]);
                    assert(("\": "@)[0] == '"');
                }
            }
        }
        lemma_next_tok_text(s, i, key);
        assert(s[i + kl + 2] == ':') by {
            assert(s.subrange(i + 1 + kl, i + 1 + kl + 3)[1] == s[i + kl + 2]);
        }
        assert(s[i + kl + 3] == ' ') by {
            assert(s.subrange(i + 1 + kl, i + 1 + kl + 3)[2] == s[i + kl + 3]);
        }
        // Record the key.
        let f2 = SpecFrame::Obj(kk.take(k).push(key), vv.take(k), Mode::ExpectColon);
        let st2 = st.update(st.len() - 1, f2);
        assert(spec_step(st, SpecToken::Text(key)) == Ok::<Seq<SpecFrame>, crate::errors::SpecErr>(
            st2,
        ));
        assert(spec_parse_at(s, i, st) == spec_parse_at(s, i + kl + 2, st2));
        lemma_st_wf_retop(st, f2);
        // The colon.
        assert(spec_next_tok(s, i + kl + 2) == SpecNext::Tok(SpecToken::Colon, i + kl + 3));
        let f3 = SpecFrame::Obj(kk.take(k).push(key), vv.take(k), Mode::ExpectValue);
        let st3 = st2.update(st2.len() - 1, f3);
        assert(spec_step(st2, SpecToken::Colon) == Ok::<Seq<SpecFrame>, crate::errors::SpecErr>(
            st3,
        ));
        assert(spec_parse_at(s, i + kl + 2, st2) == spec_parse_at(s, i + kl + 3, st3));
        lemma_st_wf_retop(st2, f3);
        // The space before the value.
        assert(is_ws(s[i + kl + 3]));
        assert(spec_next_tok(s, i + kl + 3) == spec_next_tok(s, i + kl + 4));
        assert(spec_parse_at(s, i + kl + 3, st3) == spec_parse_at(s, i + kl + 4, st3));
        // The value itself.
        let vpos = i + kl + 4;
        assert(s.subrange(vpos, vpos + vl) == vr);
        assert(vpos + vl == s.len() || is_structural(s[vpos + vl])) by {
            if k == entries.len() - 1 {
                assert(s.subrange(i + p, i + p + 1)[0] == s[i + p]);
                assert(after[0] == '}');
            } else {
                assert(s.subrange(i + p, i + p + after.len() as int)[0] == s[i + p]);
                assert(after[0] == ',');
            }
        }
        lemma_parse_render(s, vpos, st3, val);
        let st4 = push_value(st3, val);
        assert(kk.take(k).push(key) =~= kk.take(k + 1));
        assert(vv.take(k).push(val) =~= vv.take(k + 1));
        assert(st4.last() == SpecFrame::Obj(kk.take(k + 1), vv.take(k + 1), Mode::ExpectValue));
        lemma_st_wf_push_value(st3, val);
        if k == entries.len() - 1 {
            lemma_parse_render_entries(s, vpos + vl, st4, entries, k + 1, Mode::ExpectValue);
            assert(st4.drop_last() =~= st.drop_last());
            assert(tail.len() == p + 1);
        } else {
            let rest = entries_tail(entries, k + 1);
            lemma_embed_split(s, i + p, ", "@, rest);
            assert(s[i + p] == ',') by {
                assert(s.subrange(i + p, i + p + 2)[0] == s[i + p]);
            }
            assert(s[i + p + 1] == ' ') by {
                assert(s.subrange(i + p, i + p + 2)[1] == s[i + p + 1]);
            }
            assert(spec_next_tok(s, i + p) == SpecNext::Tok(SpecToken::Comma, i + p + 1));
            let f5 = SpecFrame::Obj(kk.take(k + 1), vv.take(k + 1), Mode::ExpectKey);
            let st5 = st4.update(st4.len() - 1, f5);
            assert(spec_step(st4, SpecToken::Comma) == Ok::<Seq<SpecFrame>, crate::errors::SpecErr>(
                st5,
            ));
            assert(spec_parse_at(s, i + p, st4) == spec_parse_at(s, i + p + 1, st5));
            lemma_st_wf_retop(st4, f5);
            assert(is_ws(s[i + p + 1]));
            assert(spec_next_tok(s, i + p + 1) == spec_next_tok(s, i + p + 2));
            assert(spec_parse_at(s, i + p + 1, st5) == spec_parse_at(s, i + p + 2, st5));
            lemma_parse_render_entries(s, i + p + 2, st5, entries, k + 1, Mode::ExpectKey);
            assert(st5.drop_last() =~= st.drop_last());
            assert(tail.len() == p + 2 + rest.len());
        }
    }
}

/// Structural round trip: rendering a well-formed value whose strings hold
/// no quote and no backslash, and parsing the rendering, yields the value
/// itself.
pub proof fn lemma_round_trip(v: SpecValue)
    requires
        v.wf(),
        v.render_safe(),
    ensures
        spec_parse(spec_render(v)) == Ok::<SpecValue, crate::errors::SpecErr>(v),
{
    let s = spec_render(v);
    assert(s.subrange(0, s.len() as int) =~= s);
    assert(init_state().last() == SpecFrame::Root(Seq::empty()));
    lemma_parse_render(s, 0, init_state(), v);
    let st2 = push_value(init_state(), v);
    assert(st2 =~= seq![SpecFrame::Root(seq![v])]) by {
        assert(Seq::<SpecValue>::empty().push(v) =~= seq![v]);
    }
    assert(spec_next_tok(s, s.len() as int) is Eoi);
    assert(spec_parse_at(s, s.len() as int, st2) == spec_finish(st2));
    assert(st2[0] == SpecFrame::Root(seq![v]));
    assert(seq![v].len() == 1 && seq![v][0] == v);
}

/// For a parsed value whose strings hold no quote and no backslash,
/// rendering it and parsing the rendering gives the value back: the
/// rendering is semantically equivalent to the text it was parsed from.
pub proof fn lemma_parse_render_parse(t: Seq<char>, v: SpecValue)
    requires
        spec_parse(t) == Ok::<SpecValue, crate::errors::SpecErr>(v),
        v.render_safe(),
    ensures
        spec_parse(spec_render(v)) == Ok::<SpecValue, crate::errors::SpecErr>(v),
{
    crate::laws::lemma_parse_wf(t);
    lemma_round_trip(v);
}

} // verus!
