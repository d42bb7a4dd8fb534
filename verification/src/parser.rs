//! The tree builder and resolver: tokens to one finished value tree.
//!
//! Parsing drives an explicit scope stack and never recurses on the host call
//! stack, so nesting depth is bounded only by memory.  Each open container is
//! a [`Frame`]; a closing token resolves the finished scope bottom-up into a
//! value and hands it to the enclosing frame.  The mathematical counterpart
//! is `spec_step`, one transition per token, folded over the input by
//! `spec_parse_at`; [`parse`] is proved to return exactly what `spec_parse`
//! says, value and error alike.
//!
//! An object scope keeps its keys apart from its resolved children; the two
//! are zipped when the scope closes, and a key read twice resolves to the
//! value written last.  A parse that leaves a scope open, or yields no value
//! or more than one top-level value, fails with an end-of-input error.

use vstd::prelude::*;

use crate::errors::JSONError;
use crate::errors::SpecErr;
use crate::lexer::SpecNext;
use crate::lexer::SpecToken;
use crate::lexer::Token;
use crate::lexer::TokenIterator;
use crate::lexer::lemma_next_tok_advances;
use crate::lexer::spec_next_tok;
use crate::value::JSON;
use crate::value::JSONValue;
use crate::value::SpecValue;
use crate::value::assoc_upsert;
use crate::value::lemma_model_elems;
use crate::value::lemma_model_elems_push;
use crate::value::lemma_model_fields;
use crate::value::model_elems;
use crate::value::model_fields;
use crate::value::upsert_field;

verus! {

/// What an open object scope expects next.
#[derive(Debug)]
pub enum Mode {
    ExpectKey,
    ExpectColon,
    ExpectValue,
}

/// One open scope: the root that collects finished top-level values, an array
/// in progress, or an object in progress with its keys and resolved children
/// kept apart.
#[derive(Debug)]
pub enum Frame {
    Root(Vec<JSONValue>),
    Arr(Vec<JSONValue>),
    Obj(Vec<String>, Vec<JSONValue>, Mode),
}

/// The ghost model of a [`Frame`].
pub enum SpecFrame {
    Root(Seq<SpecValue>),
    Arr(Seq<SpecValue>),
    Obj(Seq<Seq<char>>, Seq<SpecValue>, Mode),
}

/// The models of a sequence of object keys, in order.
pub open spec fn model_keys(s: Seq<String>) -> Seq<Seq<char>>
    decreases s,
{
    if s.len() == 0 {
        Seq::empty()
    } else {
        model_keys(s.drop_last()).push(s.last()@)
    }
}

pub broadcast proof fn lemma_model_keys_push(s: Seq<String>, x: String)
    ensures
        #[trigger] model_keys(s.push(x)) == model_keys(s).push(x@),
{
    assert(s.push(x).drop_last() =~= s);
    assert(s.push(x).last() == x);
}

pub broadcast proof fn lemma_model_keys(s: Seq<String>)
    ensures
        (#[trigger] model_keys(s)).len() == s.len(),
        forall|i: int| 0 <= i < s.len() ==> model_keys(s)[i] == s[i]@,
    decreases s.len(),
{
    if s.len() > 0 {
        lemma_model_keys(s.drop_last());
    }
}

impl Frame {
    /// The mathematical scope this frame stands for.
    pub open spec fn model(self) -> SpecFrame {
        match self {
            Frame::Root(vs) => SpecFrame::Root(model_elems(vs@)),
            Frame::Arr(vs) => SpecFrame::Arr(model_elems(vs@)),
            Frame::Obj(ks, vs, m) => SpecFrame::Obj(model_keys(ks@), model_elems(vs@), m),
        }
    }
}

/// The models of a whole scope stack, bottom first.
pub open spec fn stack_model(st: Seq<Frame>) -> Seq<SpecFrame> {
    Seq::new(st.len(), |i: int| st[i].model())
}

/// A well-formed scope stack: the root scope at the bottom and nowhere else.
pub open spec fn st_wf(st: Seq<SpecFrame>) -> bool {
    &&& st.len() >= 1
    &&& st[0] is Root
    &&& forall|i: int| 1 <= i < st.len() ==> !((#[trigger] st[i]) is Root)
}

/// The stack a parse starts from: one empty root scope.
pub open spec fn init_state() -> Seq<SpecFrame> {
    seq![SpecFrame::Root(Seq::empty())]
}

/// `st` with `v` handed to its innermost open scope.
pub open spec fn push_value(st: Seq<SpecFrame>, v: SpecValue) -> Seq<SpecFrame> {
    let new_top = match st.last() {
        SpecFrame::Root(vs) => SpecFrame::Root(vs.push(v)),
        SpecFrame::Arr(vs) => SpecFrame::Arr(vs.push(v)),
        SpecFrame::Obj(ks, vs, m) => SpecFrame::Obj(ks, vs.push(v), m),
    };
    st.update(st.len() - 1, new_top)
}

/// The innermost open scope is an object waiting for a key.
pub open spec fn expecting_key(f: SpecFrame) -> bool {
    f matches SpecFrame::Obj(_, _, Mode::ExpectKey)
}

/// The innermost open scope is an object waiting for a key or for the colon
/// after one.
pub open spec fn in_key_position(f: SpecFrame) -> bool {
    ||| f matches SpecFrame::Obj(_, _, Mode::ExpectKey)
    ||| f matches SpecFrame::Obj(_, _, Mode::ExpectColon)
}

/// The association list an object scope resolves to: the Nth key is bound to
/// the Nth child, and a repeated key keeps the value written last.
pub open spec fn spec_object_of(keys: Seq<Seq<char>>, vals: Seq<SpecValue>) -> Seq<
    (Seq<char>, SpecValue),
>
    decreases keys.len(),
{
    if keys.len() == 0 || vals.len() == 0 {
        Seq::empty()
    } else {
        assoc_upsert(spec_object_of(keys.drop_last(), vals.drop_last()), keys.last(), vals.last())
    }
}

/// A literal value arriving at the innermost scope: rejected as a non-string
/// key in a key position, handed to the scope otherwise.
pub open spec fn literal_step(st: Seq<SpecFrame>, v: SpecValue) -> Result<Seq<SpecFrame>, SpecErr> {
    if in_key_position(st.last()) {
        Err(SpecErr::ParseError("Non string used as object key"@))
    } else {
        Ok(push_value(st, v))
    }
}

/// One transition of the tree builder, as the scope-stack rules say:
/// container openers push a scope (but never in place of a key), closers pop
/// and resolve the matching scope, a colon is valid only right after a key,
/// a comma returns an object scope to expecting a key and leaves an array
/// scope expecting a value, a string literal in key position is recorded as
/// a key, and any other literal lands in the innermost scope as a value.
pub open spec fn spec_step(st: Seq<SpecFrame>, t: SpecToken) -> Result<Seq<SpecFrame>, SpecErr> {
    match t {
        SpecToken::LBrace => {
            if expecting_key(st.last()) {
                Err(SpecErr::ParseError("Non string used as object key"@))
            } else {
                Ok(st.push(SpecFrame::Obj(Seq::empty(), Seq::empty(), Mode::ExpectKey)))
            }
        },
        SpecToken::LBracket => {
            if expecting_key(st.last()) {
                Err(SpecErr::ParseError("Non string used as object key"@))
            } else {
                Ok(st.push(SpecFrame::Arr(Seq::empty())))
            }
        },
        SpecToken::RBrace => match st.last() {
            SpecFrame::Obj(ks, vs, _) => {
                if ks.len() != vs.len() {
                    Err(SpecErr::ParseError("Unkeyed child of object"@))
                } else {
                    Ok(push_value(st.drop_last(), SpecValue::Object(spec_object_of(ks, vs))))
                }
            },
            _ => Err(SpecErr::ParseError("Unexpected end curly brace"@)),
        },
        SpecToken::RBracket => match st.last() {
            SpecFrame::Arr(vs) => Ok(push_value(st.drop_last(), SpecValue::Array(vs))),
            _ => Err(SpecErr::ParseError("Unexpected end square brace"@)),
        },
        SpecToken::Colon => match st.last() {
            SpecFrame::Obj(ks, vs, Mode::ExpectColon) => Ok(
                st.update(st.len() - 1, SpecFrame::Obj(ks, vs, Mode::ExpectValue)),
            ),
            _ => Err(SpecErr::ParseError("Unexpected colon"@)),
        },
        SpecToken::Comma => match st.last() {
            SpecFrame::Arr(_) => Ok(st),
            SpecFrame::Obj(ks, vs, _) => Ok(
                st.update(st.len() - 1, SpecFrame::Obj(ks, vs, Mode::ExpectKey)),
            ),
            SpecFrame::Root(_) => Err(SpecErr::ParseError("Unexpected comma"@)),
        },
        SpecToken::Text(x) => match st.last() {
            SpecFrame::Obj(ks, vs, Mode::ExpectKey) => Ok(
                st.update(st.len() - 1, SpecFrame::Obj(ks.push(x), vs, Mode::ExpectColon)),
            ),
            SpecFrame::Obj(ks, vs, Mode::ExpectColon) => Ok(
                st.update(st.len() - 1, SpecFrame::Obj(ks.push(x), vs, Mode::ExpectColon)),
            ),
            _ => Ok(push_value(st, SpecValue::Text(x))),
        },
        SpecToken::Bool(b) => literal_step(st, SpecValue::Bool(b)),
        SpecToken::Null => literal_step(st, SpecValue::Null),
        SpecToken::Number(x) => literal_step(st, SpecValue::Number(x)),
    }
}

pub proof fn lemma_step_wf(st: Seq<SpecFrame>, t: SpecToken)
    requires
        st_wf(st),
    ensures
        spec_step(st, t) matches Ok(st2) ==> st_wf(st2),
{
    if st_wf(st) {
        match spec_step(st, t) {
            Ok(st2) => {
                assert(st2.len() >= 1);
            },
            Err(_) => {},
        }
    }
}

/// What remains of a parse: the builder folded over the remaining tokens,
/// then the resolver's final checks.
pub open spec fn spec_parse_at(s: Seq<char>, i: int, st: Seq<SpecFrame>) -> Result<
    SpecValue,
    SpecErr,
>
    decreases s.len() - i,
        via spec_parse_at_dec
{
    match spec_next_tok(s, i) {
        SpecNext::Eoi => spec_finish(st),
        SpecNext::Fail(e) => Err(e),
        SpecNext::Tok(t, j) => match spec_step(st, t) {
            Ok(st2) => spec_parse_at(s, j, st2),
            Err(e) => Err(e),
        },
    }
}

#[via_fn]
proof fn spec_parse_at_dec(s: Seq<char>, i: int, st: Seq<SpecFrame>) {
    if 0 <= i {
        lemma_next_tok_advances(s, i);
    } else {
        assert(spec_next_tok(s, i) is Eoi);
    }
}

/// The resolver's verdict on a finished stack: the single top-level value,
/// or an end-of-input error when a scope is still open, no value was read,
/// or more than one top-level value was.
pub open spec fn spec_finish(st: Seq<SpecFrame>) -> Result<SpecValue, SpecErr> {
    if st.len() != 1 {
        Err(SpecErr::UnexpectedEndOfInput)
    } else {
        match st[0] {
            SpecFrame::Root(vs) => {
                if vs.len() == 1 {
                    Ok(vs[0])
                } else {
                    Err(SpecErr::UnexpectedEndOfInput)
                }
            },
            _ => Err(SpecErr::UnexpectedEndOfInput),
        }
    }
}

/// What parsing the whole of `s` yields.
pub open spec fn spec_parse(s: Seq<char>) -> Result<SpecValue, SpecErr> {
    spec_parse_at(s, 0, init_state())
}

/// Resolve a finished object scope: zip the Nth key with the Nth child, a
/// repeated key keeping the value written last.
#[verifier::loop_isolation(false)]
fn resolve_object(keys: Vec<String>, vals: Vec<JSONValue>) -> (out: Vec<(String, JSONValue)>)
    requires
        keys@.len() == vals@.len(),
    ensures
        model_fields(out@) == spec_object_of(model_keys(keys@), model_elems(vals@)),
{
    broadcast use lemma_model_keys, lemma_model_elems, lemma_model_fields;

    let ghost gk = model_keys(keys@);
    let ghost gv = model_elems(vals@);
    let n = keys.len();
    let mut keys = keys;
    let mut vals = vals;
    let mut rk: Vec<String> = Vec::new();
    let mut rv: Vec<JSONValue> = Vec::new();
    while keys.len() > 0
        invariant
            keys@.len() == vals@.len(),
            rk@.len() == rv@.len(),
            keys@.len() + rk@.len() == n,
            forall|t: int| 0 <= t < keys@.len() ==> gk[t] == (#[trigger] keys@[t])@,
            forall|t: int| 0 <= t < vals@.len() ==> gv[t] == (#[trigger] vals@[t]).model(),
            forall|t: int| 0 <= t < rk@.len() ==> gk[n - 1 - t] == (#[trigger] rk@[t])@,
            forall|t: int| 0 <= t < rv@.len() ==> gv[n - 1 - t] == (#[trigger] rv@[t]).model(),
        decreases keys@.len(),
    {
        let k = keys.pop().unwrap();
        let v = vals.pop().unwrap();
        rk.push(k);
        rv.push(v);
    }
    let mut out: Vec<(String, JSONValue)> = Vec::new();
    let ghost mut i: int = 0;
    while rk.len() > 0
        invariant
            rk@.len() == rv@.len(),
            i == n - rk@.len(),
            0 <= i <= n,
            gk.len() == n && gv.len() == n,
            forall|t: int| 0 <= t < rk@.len() ==> gk[n - 1 - t] == (#[trigger] rk@[t])@,
            forall|t: int| 0 <= t < rv@.len() ==> gv[n - 1 - t] == (#[trigger] rv@[t]).model(),
            model_fields(out@) == spec_object_of(gk.take(i), gv.take(i)),
        decreases rk@.len(),
    {
        let k = rk.pop().unwrap();
        let v = rv.pop().unwrap();
        let ghost m0 = model_fields(out@);
        upsert_field(&mut out, k, v);
        proof {
            i = i + 1;
            assert(gk.take(i).drop_last() =~= gk.take(i - 1));
            assert(gv.take(i).drop_last() =~= gv.take(i - 1));
            assert(gk.take(i).last() == gk[i - 1]);
            assert(gv.take(i).last() == gv[i - 1]);
        }
    }
    proof {
        assert(gk.take(n as int) =~= gk);
        assert(gv.take(n as int) =~= gv);
    }
    out
}

/// Hand a finished value to the innermost open scope.
fn push_value_exec(stack: &mut Vec<Frame>, v: JSONValue)
    requires
        old(stack)@.len() >= 1,
    ensures
        stack_model(final(stack)@) == push_value(stack_model(old(stack)@), v.model()),
{
    broadcast use lemma_model_keys, lemma_model_elems, lemma_model_elems_push;

    let ghost st0 = stack_model(stack@);
    let top = stack.pop().unwrap();
    match top {
        Frame::Root(mut vs) => {
            vs.push(v);
            stack.push(Frame::Root(vs));
        },
        Frame::Arr(mut vs) => {
            vs.push(v);
            stack.push(Frame::Arr(vs));
        },
        Frame::Obj(ks, mut vs, m) => {
            vs.push(v);
            stack.push(Frame::Obj(ks, vs, m));
        },
    }
    proof {
        assert(stack_model(stack@) =~= push_value(st0, v.model()));
    }
}

/// The innermost open scope is an object waiting for a key or a colon.
fn key_position(f: &Frame) -> (r: bool)
    ensures
        r == in_key_position(f.model()),
{
    match f {
        Frame::Obj(_, _, Mode::ExpectKey) => true,
        Frame::Obj(_, _, Mode::ExpectColon) => true,
        _ => false,
    }
}

/// Apply one token to the scope stack, exactly as `spec_step` says.
fn apply_token(stack: &mut Vec<Frame>, t: Token) -> (r: Result<(), JSONError>)
    requires
        st_wf(stack_model(old(stack)@)),
    ensures
        match spec_step(stack_model(old(stack)@), t.model()) {
            Ok(st2) => r is Ok && stack_model(final(stack)@) == st2 && st_wf(st2),
            Err(e) => r matches Err(err) && err.model() == e,
        },
{
    broadcast use
        lemma_model_keys,
        lemma_model_elems,
        lemma_model_keys_push,
        lemma_model_elems_push;

    let ghost st0 = stack_model(stack@);
    proof {
        lemma_step_wf(st0, t.model());
        assert(st0.last() == stack@.last().model());
    }
    match t {
        Token::LBrace => {
            match &stack[stack.len() - 1] {
                Frame::Obj(_, _, Mode::ExpectKey) => Err(
                    JSONError::ParseError("Non string used as object key"),
                ),
                _ => {
                    stack.push(Frame::Obj(Vec::new(), Vec::new(), Mode::ExpectKey));
                    proof {
                        assert(stack_model(stack@) =~= st0.push(
                            SpecFrame::Obj(Seq::empty(), Seq::empty(), Mode::ExpectKey),
                        ));
                    }
                    Ok(())
                },
            }
        },
        Token::LBracket => {
            match &stack[stack.len() - 1] {
                Frame::Obj(_, _, Mode::ExpectKey) => Err(
                    JSONError::ParseError("Non string used as object key"),
                ),
                _ => {
                    stack.push(Frame::Arr(Vec::new()));
                    proof {
                        assert(stack_model(stack@) =~= st0.push(SpecFrame::Arr(Seq::empty())));
                    }
                    Ok(())
                },
            }
        },
        Token::RBrace => {
            let top = stack.pop().unwrap();
            match top {
                Frame::Obj(ks, vs, _m) => {
                    if ks.len() != vs.len() {
                        Err(JSONError::ParseError("Unkeyed child of object"))
                    } else {
                        proof {
                            assert(stack@.len() >= 1);
                        }
                        let obj = resolve_object(ks, vs);
                        push_value_exec(stack, JSONValue::Object(obj));
                        proof {
                            assert(stack_model(old(stack)@).drop_last() =~= stack_model(
                                old(stack)@.drop_last(),
                            ));
                        }
                        Ok(())
                    }
                },
                _ => Err(JSONError::ParseError("Unexpected end curly brace")),
            }
        },
        Token::RBracket => {
            let top = stack.pop().unwrap();
            match top {
                Frame::Arr(vs) => {
                    proof {
                        assert(stack@.len() >= 1);
                    }
                    push_value_exec(stack, JSONValue::Array(vs));
                    proof {
                        assert(stack_model(old(stack)@).drop_last() =~= stack_model(
                            old(stack)@.drop_last(),
                        ));
                    }
                    Ok(())
                },
                _ => Err(JSONError::ParseError("Unexpected end square brace")),
            }
        },
        Token::Colon => {
            let top = stack.pop().unwrap();
            match top {
                Frame::Obj(ks, vs, Mode::ExpectColon) => {
                    stack.push(Frame::Obj(ks, vs, Mode::ExpectValue));
                    proof {
                        assert(stack_model(stack@) =~= st0.update(
                            st0.len() - 1,
                            stack@.last().model(),
                        ));
                    }
                    Ok(())
                },
                _ => Err(JSONError::ParseError("Unexpected colon")),
            }
        },
        Token::Comma => {
            let top = stack.pop().unwrap();
            match top {
                Frame::Arr(vs) => {
                    stack.push(Frame::Arr(vs));
                    proof {
                        assert(stack_model(stack@) =~= st0);
                    }
                    Ok(())
                },
                Frame::Obj(ks, vs, _m) => {
                    stack.push(Frame::Obj(ks, vs, Mode::ExpectKey));
                    proof {
                        assert(stack_model(stack@) =~= st0.update(
                            st0.len() - 1,
                            stack@.last().model(),
                        ));
                    }
                    Ok(())
                },
                Frame::Root(_) => Err(JSONError::ParseError("Unexpected comma")),
            }
        },
        Token::Text(x) => {
            let top = stack.pop().unwrap();
            match top {
                Frame::Obj(mut ks, vs, Mode::ExpectKey) => {
                    ks.push(x);
                    stack.push(Frame::Obj(ks, vs, Mode::ExpectColon));
                    proof {
                        assert(stack_model(stack@) =~= st0.update(
                            st0.len() - 1,
                            stack@.last().model(),
                        ));
                    }
                    Ok(())
                },
                Frame::Obj(mut ks, vs, Mode::ExpectColon) => {
                    ks.push(x);
                    stack.push(Frame::Obj(ks, vs, Mode::ExpectColon));
                    proof {
                        assert(stack_model(stack@) =~= st0.update(
                            st0.len() - 1,
                            stack@.last().model(),
                        ));
                    }
                    Ok(())
                },
                other => {
                    stack.push(other);
                    proof {
                        assert(stack_model(stack@) =~= st0);
                    }
                    push_value_exec(stack, JSONValue::Text(x));
                    Ok(())
                },
            }
        },
        Token::Bool(b) => {
            let is_key = key_position(&stack[stack.len() - 1]);
            if is_key {
                Err(JSONError::ParseError("Non string used as object key"))
            } else {
                push_value_exec(stack, JSONValue::Bool(b));
                Ok(())
            }
        },
        Token::Null => {
            let is_key = key_position(&stack[stack.len() - 1]);
            if is_key {
                Err(JSONError::ParseError("Non string used as object key"))
            } else {
                push_value_exec(stack, JSONValue::Null);
                Ok(())
            }
        },
        Token::Number(x) => {
            let is_key = key_position(&stack[stack.len() - 1]);
            if is_key {
                Err(JSONError::ParseError("Non string used as object key"))
            } else {
                push_value_exec(stack, JSONValue::Number(x));
                Ok(())
            }
        },
    }
}

/// Run the tokenizer to its end, folding every token into the scope stack.
/// The stack that comes back is the parse forest: the root scope plus any
/// containers still open.
#[verifier::loop_isolation(false)]
pub fn tree_from_tokens(it: &mut TokenIterator) -> (r: Result<Vec<Frame>, JSONError>)
    requires
        old(it).wf(),
    ensures
        match r {
            Ok(stack) => st_wf(stack_model(stack@)) && spec_parse_at(
                old(it).input(),
                old(it).position(),
                init_state(),
            ) == spec_finish(stack_model(stack@)),
            Err(err) => spec_parse_at(old(it).input(), old(it).position(), init_state()) == Err::<
                SpecValue,
                SpecErr,
            >(err.model()),
        },
{
    let ghost s = old(it).input();
    let ghost p0 = old(it).position();
    let mut stack: Vec<Frame> = Vec::new();
    stack.push(Frame::Root(Vec::new()));
    proof {
        assert(stack_model(stack@) =~= init_state());
    }
    loop
        invariant
            it.wf(),
            it.input() == s,
            st_wf(stack_model(stack@)),
            spec_parse_at(s, p0, init_state()) == spec_parse_at(
                s,
                it.position(),
                stack_model(stack@),
            ),
        decreases s.len() - it.position(),
    {
        let ghost pos = it.position();
        let ghost stm = stack_model(stack@);
        proof {
            it.lemma_iter_bounds();
            lemma_next_tok_advances(s, pos);
        }
        match it.next_token() {
            Err(e) => {
                return Err(e);
            },
            Ok(None) => {
                return Ok(stack);
            },
            Ok(Some(tok)) => {
                match apply_token(&mut stack, tok) {
                    Ok(()) => {},
                    Err(e) => {
                        return Err(e);
                    },
                }
            },
        }
    }
}

/// The resolver's final step: exactly one top-level value must remain, owned
/// by the root scope alone, and it becomes the result.
pub fn consume_tree(stack: Vec<Frame>) -> (r: Result<JSONValue, JSONError>)
    ensures
        match spec_finish(stack_model(stack@)) {
            Ok(v) => r matches Ok(val) && val.model() == v,
            Err(e) => r matches Err(err) && err.model() == e,
        },
{
    broadcast use lemma_model_elems;

    let mut stack = stack;
    if stack.len() != 1 {
        return Err(JSONError::UnexpectedEndOfInput);
    }
    let top = stack.pop().unwrap();
    match top {
        Frame::Root(mut vs) => {
            if vs.len() == 1 {
                let v = vs.pop().unwrap();
                Ok(v)
            } else {
                Err(JSONError::UnexpectedEndOfInput)
            }
        },
        _ => Err(JSONError::UnexpectedEndOfInput),
    }
}

/// Parse one complete text into a value tree, or fail with the first error:
/// the result is exactly what `spec_parse` says, both on success and on
/// every rejected input.
pub fn parse(s: &str) -> (r: Result<JSONValue, JSONError>)
    requires
        s@.len() < usize::MAX,
    ensures
        match spec_parse(s@) {
            Ok(v) => r matches Ok(val) && val.model() == v,
            Err(e) => r matches Err(err) && err.model() == e,
        },
{
    let mut it = TokenIterator::new(s);
    match tree_from_tokens(&mut it) {
        Ok(stack) => consume_tree(stack),
        Err(e) => Err(e),
    }
}

impl JSON {
    /// Parse text whose top-level value must be an object, and take its
    /// fields: any other well-formed top-level value is rejected.
    pub fn from_text(s: &str) -> (r: Result<JSON, JSONError>)
        requires
            s@.len() < usize::MAX,
        ensures
            match spec_parse(s@) {
                Ok(SpecValue::Object(entries)) => r matches Ok(doc) && doc.model() == entries,
                Ok(_) => r matches Err(e) && e.model() == SpecErr::ParseError("Expected object"@),
                Err(err) => r matches Err(e) && e.model() == err,
            },
    {
        match parse(s) {
            Ok(v) => match v {
                JSONValue::Object(o) => Ok(JSON::from_fields(o)),
                _ => Err(JSONError::ParseError("Expected object")),
            },
            Err(e) => Err(e),
        }
    }
}

} // verus!
