//! Laws of the library, stated over the mathematical model and proved once
//! and for all: what rejected inputs fail with, how duplicate object keys
//! resolve, and that parsing only ever yields well-formed values.

use vstd::prelude::*;

use crate::errors::SpecErr;
use crate::lexer::SpecNext;
use crate::lexer::SpecToken;
use crate::lexer::scan_string;
use crate::lexer::spec_next_tok;
use crate::parser::SpecFrame;
use crate::parser::expecting_key;
use crate::parser::init_state;
use crate::parser::push_value;
use crate::parser::spec_finish;
use crate::parser::spec_object_of;
use crate::parser::spec_parse;
use crate::parser::spec_parse_at;
use crate::parser::spec_step;
use crate::parser::st_wf;
use crate::value::SpecValue;
use crate::value::assoc_lookup;
use crate::value::assoc_upsert;
use crate::value::keys_unique;
use crate::value::lemma_wf_entries;
use crate::value::lemma_wf_items;
use crate::value::wf_entries;
use crate::value::wf_items;

verus! {

/// An empty input (no token at all) fails with the end-of-input error, never
/// a silent default.
pub proof fn lemma_empty_input(s: Seq<char>)
    requires
        s.len() == 0,
    ensures
        spec_parse(s) == Err::<SpecValue, SpecErr>(SpecErr::UnexpectedEndOfInput),
{
    assert(spec_next_tok(s, 0) is Eoi);
    assert(spec_parse_at(s, 0, init_state()) == spec_finish(init_state()));
}

/// An input that opens a string and never closes it fails with the
/// end-of-input error.
pub proof fn lemma_unterminated_string(s: Seq<char>)
    requires
        s.len() > 0,
        s[0] == '"',
        scan_string(s, 1) is None,
    ensures
        spec_parse(s) == Err::<SpecValue, SpecErr>(SpecErr::UnexpectedEndOfInput),
{
    assert(spec_next_tok(s, 0) == SpecNext::Fail(SpecErr::UnexpectedEndOfInput));
}

/// Where an object expects a key, nothing but a string literal is accepted
/// as one: any other value or container opener, a colon, or a mismatched
/// closer makes the parse fail.
pub proof fn lemma_non_string_key(st: Seq<SpecFrame>, t: SpecToken)
    requires
        st_wf(st),
        expecting_key(st.last()),
        !(t matches SpecToken::Text(_)),
        !(t matches SpecToken::RBrace),
        !(t matches SpecToken::Comma),
    ensures
        spec_step(st, t) is Err,
        t is Bool || t is Null || t is Number || t is LBrace || t is LBracket ==> spec_step(st, t)
            == Err::<Seq<SpecFrame>, SpecErr>(
            SpecErr::ParseError("Non string used as object key"@),
        ),
{
}

/// The index of the last occurrence of `k` in `keys` (meaningful when there
/// is one).
pub open spec fn last_key_index(keys: Seq<Seq<char>>, k: Seq<char>) -> int
    decreases keys.len(),
{
    if keys.len() == 0 {
        0
    } else if keys.last() == k {
        keys.len() - 1
    } else {
        last_key_index(keys.drop_last(), k)
    }
}

/// Looking up the key that an upsert wrote finds the written value.
pub proof fn lemma_lookup_upsert_same(m: Seq<(Seq<char>, SpecValue)>, k: Seq<char>, v: SpecValue)
    ensures
        assoc_lookup(assoc_upsert(m, k, v), k) == Some(v),
    decreases m.len(),
{
    if m.len() == 0 {
    } else if m[0].0 == k {
        assert((seq![(k, v)] + m.drop_first())[0] == (k, v));
    } else {
        lemma_lookup_upsert_same(m.drop_first(), k, v);
        let u = seq![m[0]] + assoc_upsert(m.drop_first(), k, v);
        assert(u[0] == m[0]);
        assert(u.drop_first() =~= assoc_upsert(m.drop_first(), k, v));
    }
}

/// An upsert of one key leaves every other key's lookup unchanged.
pub proof fn lemma_lookup_upsert_other(
    m: Seq<(Seq<char>, SpecValue)>,
    k2: Seq<char>,
    v2: SpecValue,
    k: Seq<char>,
)
    requires
        k2 != k,
    ensures
        assoc_lookup(assoc_upsert(m, k2, v2), k) == assoc_lookup(m, k),
    decreases m.len(),
{
    if m.len() == 0 {
        let u = seq![(k2, v2)];
        assert(assoc_upsert(m, k2, v2) == u);
        assert(u[0] == (k2, v2));
        assert(u.drop_first() =~= Seq::<(Seq<char>, SpecValue)>::empty());
        assert(assoc_lookup(u, k) == assoc_lookup(u.drop_first(), k));
    } else if m[0].0 == k2 {
        let u = seq![(k2, v2)] + m.drop_first();
        assert(assoc_upsert(m, k2, v2) == u);
        assert(u[0] == (k2, v2));
        assert(u.drop_first() =~= m.drop_first());
        assert(assoc_lookup(u, k) == assoc_lookup(m.drop_first(), k));
        assert(assoc_lookup(m, k) == assoc_lookup(m.drop_first(), k));
    } else {
        lemma_lookup_upsert_other(m.drop_first(), k2, v2, k);
        let u = seq![m[0]] + assoc_upsert(m.drop_first(), k2, v2);
        assert(assoc_upsert(m, k2, v2) == u);
        assert(u[0] == m[0]);
        assert(u.drop_first() =~= assoc_upsert(m.drop_first(), k2, v2));
        if m[0].0 == k {
            assert(assoc_lookup(u, k) == Some(u[0].1));
            assert(assoc_lookup(m, k) == Some(m[0].1));
        } else {
            assert(assoc_lookup(u, k) == assoc_lookup(u.drop_first(), k));
            assert(assoc_lookup(m, k) == assoc_lookup(m.drop_first(), k));
        }
    }
}

/// Last write wins: when an object's key list binds `k` more than once, the
/// resolved object binds `k` to the child of the key's last occurrence.
pub proof fn lemma_last_write_wins(keys: Seq<Seq<char>>, vals: Seq<SpecValue>, k: Seq<char>)
    requires
        keys.len() == vals.len(),
        exists|i: int| 0 <= i < keys.len() && keys[i] == k,
    ensures
        0 <= last_key_index(keys, k) < keys.len(),
        keys[last_key_index(keys, k)] == k,
        assoc_lookup(spec_object_of(keys, vals), k) == Some(vals[last_key_index(keys, k)]),
    decreases keys.len(),
{
    let n = keys.len() as int;
    if keys.last() == k {
        lemma_lookup_upsert_same(
            spec_object_of(keys.drop_last(), vals.drop_last()),
            keys.last(),
            vals.last(),
        );
    } else {
        let i = choose|i: int| 0 <= i < keys.len() && keys[i] == k;
        assert(i < n - 1);
        assert(keys.drop_last()[i] == keys[i]);
        lemma_last_write_wins(keys.drop_last(), vals.drop_last(), k);
        lemma_lookup_upsert_other(
            spec_object_of(keys.drop_last(), vals.drop_last()),
            keys.last(),
            vals.last(),
            k,
        );
        assert(vals.drop_last()[last_key_index(keys, k)] == vals[last_key_index(keys, k)]);
    }
}

/// An upsert with a well-formed value keeps an association list well formed:
/// keys stay unique and every value stays well formed.
pub proof fn lemma_upsert_wf(m: Seq<(Seq<char>, SpecValue)>, k: Seq<char>, v: SpecValue)
    requires
        keys_unique(m),
        wf_entries(m),
        v.wf(),
    ensures
        keys_unique(assoc_upsert(m, k, v)),
        wf_entries(assoc_upsert(m, k, v)),
{
    broadcast use lemma_wf_entries;

    crate::value::lemma_assoc_upsert_shape(m, k, v);
    let j = crate::value::find_key(m, k);
    if j < m.len() {
        let u = m.update(j, (k, v));
        assert(m[j].0 == k);
        assert forall|a: int, b: int| 0 <= a < b < u.len() implies (#[trigger] u[a]).0 != (
        #[trigger] u[b]).0 by {
            assert(u[a].0 == m[a].0 && u[b].0 == m[b].0);
        }
    } else {
        let u = m.push((k, v));
        assert forall|a: int, b: int| 0 <= a < b < u.len() implies (#[trigger] u[a]).0 != (
        #[trigger] u[b]).0 by {
            if b < m.len() {
                assert(u[a] == m[a] && u[b] == m[b]);
            } else {
                assert(u[b] == (k, v));
                assert(u[a] == m[a]);
            }
        }
    }
}

/// A resolved object made from well-formed children is well formed.
pub proof fn lemma_object_of_wf(keys: Seq<Seq<char>>, vals: Seq<SpecValue>)
    requires
        keys.len() == vals.len(),
        wf_items(vals),
    ensures
        keys_unique(spec_object_of(keys, vals)),
        wf_entries(spec_object_of(keys, vals)),
    decreases keys.len(),
{
    broadcast use lemma_wf_items;

    if keys.len() > 0 {
        assert forall|i: int| 0 <= i < vals.len() - 1 implies vals.drop_last()[i] == vals[i] by {}
        lemma_object_of_wf(keys.drop_last(), vals.drop_last());
        lemma_upsert_wf(
            spec_object_of(keys.drop_last(), vals.drop_last()),
            keys.last(),
            vals.last(),
        );
    }
}

/// The resolved values held by one scope.
pub open spec fn frame_vals(f: SpecFrame) -> Seq<SpecValue> {
    match f {
        SpecFrame::Root(vs) => vs,
        SpecFrame::Arr(vs) => vs,
        SpecFrame::Obj(_, vs, _) => vs,
    }
}

/// Every resolved value held by any scope of the stack is well formed.
pub open spec fn st_vals_wf(st: Seq<SpecFrame>) -> bool {
    forall|i: int| 0 <= i < st.len() ==> wf_items(frame_vals(#[trigger] st[i]))
}

/// One builder step keeps every held value well formed, as long as a number
/// token carries a valid literal.
pub proof fn lemma_step_vals_wf(st: Seq<SpecFrame>, t: SpecToken)
    requires
        st_wf(st),
        st_vals_wf(st),
        t matches SpecToken::Number(x) ==> crate::numbers::is_number_literal(x),
    ensures
        spec_step(st, t) matches Ok(st2) ==> st_vals_wf(st2),
{
    broadcast use lemma_wf_items, lemma_wf_entries;

    match spec_step(st, t) {
        Ok(st2) => {
            match t {
                SpecToken::LBrace | SpecToken::LBracket => {
                    assert forall|i: int| 0 <= i < st2.len() implies wf_items(
                        frame_vals(#[trigger] st2[i]),
                    ) by {
                        if i < st.len() {
                            assert(st2[i] == st[i]);
                        } else {
                            assert(frame_vals(st2[i]) =~= Seq::<SpecValue>::empty());
                        }
                    }
                },
                SpecToken::RBrace => {
                    match st.last() {
                        SpecFrame::Obj(ks, vs, _) => {
                            assert(st.len() >= 2);
                            assert(wf_items(frame_vals(st.last())));
                            lemma_object_of_wf(ks, vs);
                            let v = SpecValue::Object(spec_object_of(ks, vs));
                            assert(v.wf());
                            assert forall|i: int| 0 <= i < st.len() - 1 implies wf_items(
                                frame_vals(#[trigger] st.drop_last()[i]),
                            ) by {
                                assert(st.drop_last()[i] == st[i]);
                            }
                            lemma_push_value_vals_wf(st.drop_last(), v);
                        },
                        _ => {},
                    }
                },
                SpecToken::RBracket => {
                    match st.last() {
                        SpecFrame::Arr(vs) => {
                            assert(st.len() >= 2);
                            assert(wf_items(frame_vals(st.last())));
                            let v = SpecValue::Array(vs);
                            assert(v.wf());
                            assert forall|i: int| 0 <= i < st.len() - 1 implies wf_items(
                                frame_vals(#[trigger] st.drop_last()[i]),
                            ) by {
                                assert(st.drop_last()[i] == st[i]);
                            }
                            lemma_push_value_vals_wf(st.drop_last(), v);
                        },
                        _ => {},
                    }
                },
                SpecToken::Colon | SpecToken::Comma => {
                    assert forall|i: int| 0 <= i < st2.len() implies wf_items(
                        frame_vals(#[trigger] st2[i]),
                    ) by {
                        if i < st.len() - 1 {
                            assert(st2[i] == st[i]);
                        } else {
                            assert(frame_vals(st2[i]) == frame_vals(st[i]));
                        }
                    }
                },
                SpecToken::Text(x) => {
                    if crate::parser::in_key_position(st.last()) {
                        assert forall|i: int| 0 <= i < st2.len() implies wf_items(
                            frame_vals(#[trigger] st2[i]),
                        ) by {
                            if i < st.len() - 1 {
                                assert(st2[i] == st[i]);
                            } else {
                                assert(frame_vals(st2[i]) == frame_vals(st[i]));
                            }
                        }
                    } else {
                        lemma_push_value_vals_wf(st, SpecValue::Text(x));
                    }
                },
                SpecToken::Bool(b) => {
                    lemma_push_value_vals_wf(st, SpecValue::Bool(b));
                },
                SpecToken::Null => {
                    lemma_push_value_vals_wf(st, SpecValue::Null);
                },
                SpecToken::Number(x) => {
                    lemma_push_value_vals_wf(st, SpecValue::Number(x));
                },
            }
        },
        Err(_) => {},
    }
}

/// Handing a well-formed value to the innermost scope keeps every held value
/// well formed.
pub proof fn lemma_push_value_vals_wf(st: Seq<SpecFrame>, v: SpecValue)
    requires
        st.len() >= 1,
        st_vals_wf(st),
        v.wf(),
    ensures
        st_vals_wf(push_value(st, v)),
{
    broadcast use lemma_wf_items;

    let st2 = push_value(st, v);
    assert(wf_items(frame_vals(st.last())));
    assert(frame_vals(st2.last()) == frame_vals(st.last()).push(v));
    assert forall|i: int| 0 <= i < st2.len() implies wf_items(frame_vals(#[trigger] st2[i])) by {
        if i < st.len() - 1 {
            assert(st2[i] == st[i]);
        } else {
            assert(st2[i] == st2.last());
            assert forall|j: int|
                0 <= j < frame_vals(st2.last()).len() implies (#[trigger] frame_vals(
                st2.last(),
            )[j]).wf() by {
                if j < frame_vals(st.last()).len() {
                    assert(frame_vals(st2.last())[j] == frame_vals(st.last())[j]);
                } else {
                    assert(frame_vals(st2.last())[j] == v);
                }
            }
        }
    }
}

/// A number token always carries a valid numeric literal.
pub proof fn lemma_next_tok_number(s: Seq<char>, i: int)
    ensures
        spec_next_tok(s, i) matches SpecNext::Tok(SpecToken::Number(x), _)
            ==> crate::numbers::is_number_literal(x),
    decreases s.len() - i,
{
    if 0 <= i < s.len() && crate::lexer::is_ws(s[i]) {
        lemma_next_tok_number(s, i + 1);
    }
}

/// Whatever remains of a parse, from a stack whose held values are all well
/// formed, yields a well-formed value if it yields one.
pub proof fn lemma_parse_at_wf(s: Seq<char>, i: int, st: Seq<SpecFrame>)
    requires
        st_wf(st),
        st_vals_wf(st),
    ensures
        spec_parse_at(s, i, st) matches Ok(v) ==> v.wf(),
    decreases s.len() - i,
{
    broadcast use lemma_wf_items;

    match spec_next_tok(s, i) {
        SpecNext::Eoi => {
            match spec_finish(st) {
                Ok(v) => {
                    assert(wf_items(frame_vals(st[0])));
                },
                Err(_) => {},
            }
        },
        SpecNext::Fail(_) => {},
        SpecNext::Tok(t, j) => {
            match spec_step(st, t) {
                Ok(st2) => {
                    lemma_next_tok_number(s, i);
                    lemma_step_vals_wf(st, t);
                    crate::parser::lemma_step_wf(st, t);
                    if 0 <= i {
                        crate::lexer::lemma_next_tok_advances(s, i);
                        lemma_parse_at_wf(s, j, st2);
                    }
                },
                Err(_) => {},
            }
        },
    }
}

/// Every value a successful parse returns is well formed: its numeric
/// literals match the numeric grammar and its objects' keys are unique.
pub proof fn lemma_parse_wf(s: Seq<char>)
    ensures
        spec_parse(s) matches Ok(v) ==> v.wf(),
{
    assert(st_vals_wf(init_state())) by {
        broadcast use lemma_wf_items;

        assert(frame_vals(init_state()[0]) =~= Seq::<SpecValue>::empty());
    }
    lemma_parse_at_wf(s, 0, init_state());
}

} // verus!
