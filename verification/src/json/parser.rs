//! Token-level JSON parsing: nesting-depth tracking, skipping whole values,
//! and reading O-DF values, histories, items and objects.

use vstd::prelude::*;
use super::error::{lpe, LiteParseError, ParseError, ParseErrorView, Pos};
use super::omi_spec::{
    array_at, array_elems, cancel_at, delete_at, envelope_field, envelope_finish, fields_body,
    item_status_at, lift_lite, lift_omi, members, no_env_fields, no_read_fields, omi_message_at, one_field,
    opened, read_at, read_field, response_at, response_field, result_at, status_at, status_field,
    string_elem, strings_at, uint_at, int_at, whole_at, write_at, write_field, write_finish,
    write_item_at, write_item_field, EnvFields, WriteFields,
};
use crate::omi::{item_status_views, texts, write_item_views, CancelOp, DeleteOp, ItemStatus, ItemStatusView,
    OmiMessage, Operation, OperationView, ReadOp, ResponseBody, ResponseResult, ResultPayload, WriteItem,
    WriteItemView, WriteOp, opt_result};
use super::lexer::{
    at_pos, lemma_scan_at_end, lemma_scan_progress, next_outcome, same_kind, scan_at, ws_end, Lexer, Token,
    TokenView,
};
use super::odf_spec::{
    item_at, item_members, items_at, items_members, member_key, member_sep, meta_at, meta_members,
    num_bits, number_at, number_tokens_from, object_at, object_members, objects_at, objects_members,
    omi_value_at, open_at, opt_string_at, ring_at, ring_cap, ring_elements, value_at, value_members,
    whole_input,
};
use crate::odf::map::{entries_map, entry_keys, lemma_entries_map_insert, lemma_entries_map_update,
    lemma_sorted_unique, put_entry, sorted_keys};
use crate::odf::object::{child_map, children_wf, items_map, items_wf, meta_view, omi_view, opt_text, or_empty,
    InfoItem, Object, ObjectView};
use crate::odf::value::{value_views, RingBuffer, Value, ValueView};
use crate::odf::{OmiValue, OmiValueView};

verus! {

/// Maximum nesting depth for JSON parsing. Each `{` or `[` counts as one level.
pub const MAX_DEPTH: usize = 32;

/// The position after a token outcome (the end of the input for an error).
pub open spec fn outcome_pos(d: Seq<u8>, o: Result<(Option<TokenView>, int), LiteParseError>) -> int {
    match o {
        Ok((_, q)) => q,
        Err(_) => d.len() as int,
    }
}

/// Skipping the value whose first token is the outcome `o`, at nesting depth
/// `depth`: the position after the value.
pub open spec fn skip_spec(d: Seq<u8>, o: Result<(Option<TokenView>, int), LiteParseError>, depth: nat) -> Result<
    int,
    LiteParseError,
>
    decreases d.len() - outcome_pos(d, o), 2nat,
{
    match o {
        Err(e) => Err(e),
        Ok((None, q)) => Err(LiteParseError::UnexpectedEof { pos: at_pos(q) }),
        Ok((Some(t), q)) => match t {
            TokenView::String(_) | TokenView::Integer(_) | TokenView::Number(_) | TokenView::Bool(_)
            | TokenView::Null => Ok(q),
            TokenView::ObjectStart => if depth + 1 > MAX_DEPTH {
                Err(LiteParseError::DepthExceeded { max: MAX_DEPTH, pos: at_pos(q) })
            } else {
                object_body(d, q, depth + 1)
            },
            TokenView::ArrayStart => if depth + 1 > MAX_DEPTH {
                Err(LiteParseError::DepthExceeded { max: MAX_DEPTH, pos: at_pos(q) })
            } else {
                array_body(d, q, depth + 1)
            },
            _ => Err(LiteParseError::ExpectedToken { expected: "value", pos: at_pos(q) }),
        },
    }
}

/// An object's members after its `{` at `q`: the position after its `}`.
pub open spec fn object_body(d: Seq<u8>, q: int, depth: nat) -> Result<int, LiteParseError>
    decreases d.len() - q, 1nat,
{
    match scan_at(d, q) {
        Err(e) => Err(e),
        Ok((Some(TokenView::ObjectEnd), q1)) => Ok(q1),
        Ok(_) => object_member(d, q, depth),
    }
}

/// Object members from `q` (before a key): the position after the closing `}`.
pub open spec fn object_member(d: Seq<u8>, q: int, depth: nat) -> Result<int, LiteParseError>
    decreases d.len() - q, 0nat,
{
    match scan_at(d, q) {
        Err(e) => Err(e),
        Ok((None, q1)) => Err(LiteParseError::UnexpectedEof { pos: at_pos(q1) }),
        Ok((Some(TokenView::String(_)), q1)) => match scan_at(d, q1) {
            Err(e) => Err(e),
            Ok((None, q2)) => Err(LiteParseError::UnexpectedEof { pos: at_pos(q2) }),
            Ok((Some(TokenView::Colon), q2)) => if q < outcome_pos(d, scan_at(d, q2)) <= d.len() {
                match skip_spec(d, scan_at(d, q2), depth) {
                    Err(e) => Err(e),
                    Ok(q3) => match scan_at(d, q3) {
                        Err(e) => Err(e),
                        Ok((Some(TokenView::Comma), q4)) => if q < q4 <= d.len() {
                            object_member(d, q4, depth)
                        } else {
                            Err(LiteParseError::UnexpectedEof { pos: at_pos(q4) })
                        },
                        Ok((Some(TokenView::ObjectEnd), q4)) => Ok(q4),
                        Ok((_, q4)) => Err(
                            LiteParseError::ExpectedToken { expected: "',' or '}'", pos: at_pos(q4) },
                        ),
                    },
                }
            } else {
                Err(LiteParseError::UnexpectedEof { pos: at_pos(q2) })
            },
            Ok((Some(_), q2)) => Err(LiteParseError::ExpectedToken { expected: "':'", pos: at_pos(q2) }),
        },
        Ok((Some(_), q1)) => Err(LiteParseError::ExpectedToken { expected: "string", pos: at_pos(q1) }),
    }
}

/// An array's elements after its `[` at `q`: the position after its `]`.
pub open spec fn array_body(d: Seq<u8>, q: int, depth: nat) -> Result<int, LiteParseError>
    decreases d.len() - q, 1nat,
{
    match scan_at(d, q) {
        Err(e) => Err(e),
        Ok((Some(TokenView::ArrayEnd), q1)) => Ok(q1),
        Ok(_) => array_element(d, q, depth),
    }
}

/// Array elements from `q` (before an element): the position after the closing `]`.
pub open spec fn array_element(d: Seq<u8>, q: int, depth: nat) -> Result<int, LiteParseError>
    decreases d.len() - q, 0nat,
{
    if q < outcome_pos(d, scan_at(d, q)) <= d.len() {
        match skip_spec(d, scan_at(d, q), depth) {
            Err(e) => Err(e),
            Ok(q3) => match scan_at(d, q3) {
                Err(e) => Err(e),
                Ok((Some(TokenView::Comma), q4)) => if q < q4 <= d.len() {
                    array_element(d, q4, depth)
                } else {
                    Err(LiteParseError::UnexpectedEof { pos: at_pos(q4) })
                },
                Ok((Some(TokenView::ArrayEnd), q4)) => Ok(q4),
                Ok((_, q4)) => Err(
                    LiteParseError::ExpectedToken { expected: "',' or ']'", pos: at_pos(q4) },
                ),
            },
        }
    } else {
        match scan_at(d, q) {
            Err(e) => Err(e),
            Ok((None, q1)) => Err(LiteParseError::UnexpectedEof { pos: at_pos(q1) }),
            Ok((Some(_), q1)) => Err(LiteParseError::UnexpectedEof { pos: at_pos(q1) }),
        }
    }
}

/// How much work is left for a lexer: the unread bytes, and one for a peeked token.
pub open spec fn lex_measure(l: Lexer) -> int {
    l.input_bytes().len() - l.offset() + (if l.peeked_token() is Some {
        1int
    } else {
        0int
    })
}

/// JSON parser with nesting depth tracking.
///
/// Wraps a [`Lexer`]; higher-level parsers use the lexer and the depth
/// tracking it provides.
pub struct JsonParser<'a> {
    lex: Lexer<'a>,
    depth: usize,
}

impl<'a> JsonParser<'a> {
    /// The underlying lexer.
    pub closed spec fn lexer_state(&self) -> Lexer<'a> {
        self.lex
    }

    /// The current nesting depth.
    pub closed spec fn depth_level(&self) -> nat {
        self.depth as nat
    }

    /// The lexer is well formed.
    pub closed spec fn wf(&self) -> bool {
        self.lex.wf()
    }

    pub fn new(input: &'a [u8]) -> (r: Self)
        ensures
            r.wf(),
            r.lexer_state().input_bytes() == input@,
            r.lexer_state().offset() == 0,
            r.lexer_state().peeked_token() is None,
            r.depth_level() == 0,
    {
        JsonParser { lex: Lexer::new(input), depth: 0 }
    }

    /// The underlying lexer, for reading tokens directly; the nesting depth
    /// is left as it is.
    pub fn lexer(&mut self) -> (r: &mut Lexer<'a>)
        ensures
            *r == old(self).lexer_state(),
            final(self).lexer_state() == *final(r),
            final(self).depth_level() == old(self).depth_level(),
    {
        &mut self.lex
    }

    /// Check if all input has been consumed.
    pub fn is_eof(&mut self) -> (r: bool)
        requires
            old(self).wf(),
        ensures
            final(self).wf(),
            final(self).depth_level() == old(self).depth_level(),
            final(self).lexer_state().input_bytes() == old(self).lexer_state().input_bytes(),
            final(self).lexer_state().peeked_token() == old(self).lexer_state().peeked_token(),
            old(self).lexer_state().peeked_token() is Some ==> !r && final(self).lexer_state().offset()
                == old(self).lexer_state().offset(),
            old(self).lexer_state().peeked_token() is None ==> final(self).lexer_state().offset()
                == super::lexer::ws_end(
                old(self).lexer_state().input_bytes(),
                old(self).lexer_state().offset(),
            ) && r == (final(self).lexer_state().offset() >= old(
                self,
            ).lexer_state().input_bytes().len()),
    {
        self.lex.is_eof()
    }

    /// Current byte position in the input.
    pub fn position(&self) -> (r: usize)
        ensures
            r == self.lexer_state().offset(),
    {
        self.lex.position()
    }

    fn pos(&self) -> (r: Pos)
        ensures
            r == at_pos(self.lex.offset()),
    {
        Pos::new(self.lex.position())
    }

    fn enter(&mut self) -> (r: Result<(), LiteParseError>)
        requires
            old(self).depth < usize::MAX,
        ensures
            final(self).lex == old(self).lex,
            final(self).depth == old(self).depth + 1,
            r is Ok <==> old(self).depth + 1 <= MAX_DEPTH,
            r matches Err(e) ==> e == (LiteParseError::DepthExceeded {
                max: MAX_DEPTH,
                pos: at_pos(old(self).lex.offset()),
            }),
    {
        self.depth = self.depth + 1;
        if self.depth > MAX_DEPTH {
            Err(LiteParseError::DepthExceeded { max: MAX_DEPTH, pos: self.pos() })
        } else {
            Ok(())
        }
    }

    fn leave(&mut self)
        ensures
            final(self).lex == old(self).lex,
            final(self).depth == if old(self).depth > 0 {
                old(self).depth - 1
            } else {
                0
            },
    {
        self.depth = self.depth.saturating_sub(1);
    }

    /// Consume the next token and extract a String, or return an error.
    fn expect_string(&mut self) -> (r: Result<String, LiteParseError>)
        requires
            old(self).lex.wf(),
        ensures
            final(self).lex.wf(),
            final(self).depth == old(self).depth,
            final(self).lex.input_bytes() == old(self).lex.input_bytes(),
            final(self).lex.peeked_token() is None,
            match next_outcome(
                old(self).lex.input_bytes(),
                old(self).lex.offset(),
                old(self).lex.peeked_token(),
            ) {
                Err(e) => r matches Err(e2) && e2 == e,
                Ok((None, q)) => r matches Err(e2) && e2 == (LiteParseError::UnexpectedEof {
                    pos: at_pos(q),
                }) && final(self).lex.offset() == q,
                Ok((Some(TokenView::String(s)), q)) => r matches Ok(x) && x@ == s
                    && final(self).lex.offset() == q,
                Ok((Some(_), q)) => r matches Err(e2) && e2 == (LiteParseError::ExpectedToken {
                    expected: "string",
                    pos: at_pos(q),
                }) && final(self).lex.offset() == q,
            },
    {
        match self.lex.next_token() {
            Err(e) => Err(e),
            Ok(Some(Token::String(s))) => Ok(s),
            Ok(Some(_)) => Err(LiteParseError::ExpectedToken { expected: "string", pos: self.pos() }),
            Ok(None) => Err(LiteParseError::UnexpectedEof { pos: self.pos() }),
        }
    }

    /// Check if the next token is of the same kind as `expected`, without consuming it.
    fn peek_is(&mut self, expected: &Token) -> (r: Result<bool, LiteParseError>)
        requires
            old(self).lex.wf(),
        ensures
            final(self).lex.wf(),
            final(self).depth == old(self).depth,
            final(self).lex.input_bytes() == old(self).lex.input_bytes(),
            match next_outcome(
                old(self).lex.input_bytes(),
                old(self).lex.offset(),
                old(self).lex.peeked_token(),
            ) {
                Err(e) => r matches Err(e2) && e2 == e,
                Ok((t, q)) => final(self).lex.peeked_token() == t && final(self).lex.offset() == q && r
                    == Ok::<bool, LiteParseError>(
                    t matches Some(x) && same_kind(x, expected@),
                ),
            },
    {
        match self.lex.peek_token() {
            Err(e) => Err(e),
            Ok(Some(tok)) => Ok(super::lexer::token_kinds_match(tok, expected)),
            Ok(None) => Ok(false),
        }
    }

    /// Skip any JSON value, tracking depth for nested structures.
    pub fn skip_value(&mut self) -> (r: Result<(), LiteParseError>)
        requires
            old(self).wf(),
            old(self).depth_level() + MAX_DEPTH < usize::MAX,
        ensures
            final(self).wf(),
            final(self).lexer_state().input_bytes() == old(self).lexer_state().input_bytes(),
            match skip_spec(
                old(self).lexer_state().input_bytes(),
                next_outcome(
                    old(self).lexer_state().input_bytes(),
                    old(self).lexer_state().offset(),
                    old(self).lexer_state().peeked_token(),
                ),
                old(self).depth_level(),
            ) {
                Ok(q) => r is Ok && final(self).lexer_state().offset() == q
                    && final(self).lexer_state().peeked_token() is None && final(self).depth_level()
                    == old(self).depth_level() && q >= old(self).lexer_state().offset(),
                Err(e) => r matches Err(e2) && e2 == e,
            },
        decreases lex_measure(old(self).lexer_state()), 1int,
    {
        let ghost d = self.lex.input_bytes();
        let ghost d0 = self.depth;
        let ghost m0 = lex_measure(self.lex);
        let ghost first = next_outcome(d, self.lex.offset(), self.lex.peeked_token());
        proof {
            if self.lex.peeked_token() is None {
                lemma_scan_progress(d, self.lex.offset());
            }
        }
        let tok = match self.lex.next_token() {
            Ok(t) => t,
            Err(e) => return Err(e),
        };
        match tok {
            None => Err(LiteParseError::UnexpectedEof { pos: self.pos() }),
            Some(Token::String(_)) => Ok(()),
            Some(Token::Integer(_)) => Ok(()),
            Some(Token::Number(_)) => Ok(()),
            Some(Token::Bool(_)) => Ok(()),
            Some(Token::Null) => Ok(()),
            Some(Token::ObjectStart) => self.skip_object(Ghost(m0)),
            Some(Token::ArrayStart) => self.skip_array(Ghost(m0)),
            Some(_) => Err(LiteParseError::ExpectedToken { expected: "value", pos: self.pos() }),
        }
    }

    /// Skip the rest of an object whose `{` was just read.
    fn skip_object(&mut self, Ghost(m0): Ghost<int>) -> (r: Result<(), LiteParseError>)
        requires
            old(self).lex.wf(),
            old(self).lex.peeked_token() is None,
            lex_measure(old(self).lex) < m0,
            old(self).depth + MAX_DEPTH < usize::MAX,
        ensures
            final(self).lex.wf(),
            final(self).lex.input_bytes() == old(self).lex.input_bytes(),
            match (if old(self).depth + 1 > MAX_DEPTH {
                Err(LiteParseError::DepthExceeded { max: MAX_DEPTH, pos: at_pos(old(self).lex.offset()) })
            } else {
                object_body(old(self).lex.input_bytes(), old(self).lex.offset(), (old(self).depth + 1) as nat)
            }) {
                Ok(q) => r is Ok && final(self).lex.offset() == q && final(self).lex.peeked_token() is None
                    && final(self).depth == old(self).depth && q > old(self).lex.offset(),
                Err(e) => r matches Err(e2) && e2 == e,
            },
        decreases m0, 0int,
    {
        let ghost d = self.lex.input_bytes();
        let ghost q0 = self.lex.offset();
        let ghost dep: nat = (self.depth + 1) as nat;
        match self.enter() {
            Err(e) => return Err(e),
            Ok(()) => {},
        }
        proof {
            lemma_scan_progress(d, q0);
        }
        match self.peek_is(&Token::ObjectEnd) {
            Err(e) => return Err(e),
            Ok(true) => {
                let _ = self.lex.next_token();
                self.leave();
                return Ok(());
            },
            Ok(false) => {},
        }
        proof {
            if scan_at(d, q0) matches Ok((None, _)) {
                lemma_scan_at_end(d, q0);
            }
        }
        let ghost mut vq: int = q0;
        loop
            invariant
                self.lex.wf(),
                self.lex.input_bytes() == d,
                self.depth == dep,
                dep == old(self).depth + 1,
                dep <= MAX_DEPTH,
                object_body(d, q0, dep) == object_member(d, vq, dep),
                next_outcome(d, self.lex.offset(), self.lex.peeked_token()) == scan_at(d, vq),
                0 <= q0 <= vq <= self.lex.offset() <= d.len(),
                d == old(self).lex.input_bytes(),
                q0 == old(self).lex.offset(),
                lex_measure(old(self).lex) < m0,
                d.len() - q0 < m0,
            decreases d.len() - vq,
        {
            proof {
                lemma_scan_progress(d, vq);
            }
            match self.expect_string() {
                Err(e) => return Err(e),
                Ok(_) => {},
            }
            let ghost q1 = self.lex.offset();
            proof {
                lemma_scan_progress(d, q1);
            }
            match self.lex.expect_token(&Token::Colon) {
                Err(e) => return Err(e),
                Ok(_) => {},
            }
            let ghost q2 = self.lex.offset();
            proof {
                lemma_scan_progress(d, q2);
            }
            match self.skip_value() {
                Err(e) => return Err(e),
                Ok(()) => {},
            }
            let ghost q3 = self.lex.offset();
            proof {
                lemma_scan_progress(d, q3);
            }
            let comma = self.peek_is(&Token::Comma);
            proof {
                if scan_at(d, q3) matches Ok((None, _)) {
                    lemma_scan_at_end(d, q3);
                }
            }
            match comma {
                Err(e) => return Err(e),
                Ok(true) => {
                    let _ = self.lex.next_token();
                    proof {
                        vq = self.lex.offset() as int;
                    }
                },
                Ok(false) => {
                    match self.peek_is(&Token::ObjectEnd) {
                        Err(e) => return Err(e),
                        Ok(true) => {
                            let _ = self.lex.next_token();
                            self.leave();
                            return Ok(());
                        },
                        Ok(false) => {
                            return Err(
                                LiteParseError::ExpectedToken { expected: "',' or '}'", pos: self.pos() },
                            );
                        },
                    }
                },
            }
        }
    }

    /// Skip the rest of an array whose `[` was just read.
    fn skip_array(&mut self, Ghost(m0): Ghost<int>) -> (r: Result<(), LiteParseError>)
        requires
            old(self).lex.wf(),
            old(self).lex.peeked_token() is None,
            lex_measure(old(self).lex) < m0,
            old(self).depth + MAX_DEPTH < usize::MAX,
        ensures
            final(self).lex.wf(),
            final(self).lex.input_bytes() == old(self).lex.input_bytes(),
            match (if old(self).depth + 1 > MAX_DEPTH {
                Err(LiteParseError::DepthExceeded { max: MAX_DEPTH, pos: at_pos(old(self).lex.offset()) })
            } else {
                array_body(old(self).lex.input_bytes(), old(self).lex.offset(), (old(self).depth + 1) as nat)
            }) {
                Ok(q) => r is Ok && final(self).lex.offset() == q && final(self).lex.peeked_token() is None
                    && final(self).depth == old(self).depth && q > old(self).lex.offset(),
                Err(e) => r matches Err(e2) && e2 == e,
            },
        decreases m0, 0int,
    {
        let ghost d = self.lex.input_bytes();
        let ghost q0 = self.lex.offset();
        let ghost dep: nat = (self.depth + 1) as nat;
        match self.enter() {
            Err(e) => return Err(e),
            Ok(()) => {},
        }
        proof {
            lemma_scan_progress(d, q0);
        }
        match self.peek_is(&Token::ArrayEnd) {
            Err(e) => return Err(e),
            Ok(true) => {
                let _ = self.lex.next_token();
                self.leave();
                return Ok(());
            },
            Ok(false) => {},
        }
        proof {
            if scan_at(d, q0) matches Ok((None, _)) {
                lemma_scan_at_end(d, q0);
            }
        }
        let ghost mut vq: int = q0;
        loop
            invariant
                self.lex.wf(),
                self.lex.input_bytes() == d,
                self.depth == dep,
                dep == old(self).depth + 1,
                dep <= MAX_DEPTH,
                array_body(d, q0, dep) == array_element(d, vq, dep),
                next_outcome(d, self.lex.offset(), self.lex.peeked_token()) == scan_at(d, vq),
                0 <= q0 <= vq <= self.lex.offset() <= d.len(),
                d == old(self).lex.input_bytes(),
                q0 == old(self).lex.offset(),
                lex_measure(old(self).lex) < m0,
                d.len() - q0 < m0,
            decreases d.len() - vq,
        {
            proof {
                lemma_scan_progress(d, vq);
            }
            match self.skip_value() {
                Err(e) => return Err(e),
                Ok(()) => {},
            }
            let ghost q3 = self.lex.offset();
            proof {
                lemma_scan_progress(d, q3);
            }
            let comma = self.peek_is(&Token::Comma);
            proof {
                if scan_at(d, q3) matches Ok((None, _)) {
                    lemma_scan_at_end(d, q3);
                }
            }
            match comma {
                Err(e) => return Err(e),
                Ok(true) => {
                    let _ = self.lex.next_token();
                    proof {
                        vq = self.lex.offset() as int;
                    }
                },
                Ok(false) => {
                    match self.peek_is(&Token::ArrayEnd) {
                        Err(e) => return Err(e),
                        Ok(true) => {
                            let _ = self.lex.next_token();
                            self.leave();
                            return Ok(());
                        },
                        Ok(false) => {
                            return Err(
                                LiteParseError::ExpectedToken { expected: "',' or ']'", pos: self.pos() },
                            );
                        },
                    }
                },
            }
        }
    }
}


/// The bits that the number table gives for the number token ending at `q`.
fn lookup_number(nums: &Vec<(usize, u64)>, q: usize) -> (r: Option<u64>)
    ensures
        r == num_bits(nums@, q as int),
{
    let mut i: usize = 0;
    assert(nums@.skip(0) =~= nums@);
    while i < nums.len()
        invariant
            i <= nums.len(),
            num_bits(nums@, q as int) == num_bits(nums@.skip(i as int), q as int),
        decreases nums.len() - i,
    {
        if nums[i].0 == q {
            return Some(nums[i].1);
        }
        assert(nums@.skip(i as int).drop_first() =~= nums@.skip(i as int + 1));
        i = i + 1;
    }
    assert(nums@.skip(i as int).len() == 0);
    None
}

impl<'a> JsonParser<'a> {
    /// Enter a nested structure and take its opening token.
    fn open(&mut self, start: &Token) -> (r: Result<(), LiteParseError>)
        requires
            old(self).lex.wf(),
            old(self).depth < usize::MAX,
        ensures
            final(self).lex.wf(),
            final(self).lex.input_bytes() == old(self).lex.input_bytes(),
            match open_at(
                next_outcome(old(self).lex.input_bytes(), old(self).lex.offset(), old(self).lex.peeked_token()),
                old(self).lex.offset(),
                old(self).depth as nat,
                start@,
            ) {
                Ok(q) => r is Ok && final(self).lex.offset() == q && final(self).lex.peeked_token() is None
                    && final(self).depth == old(self).depth + 1,
                Err(e) => r matches Err(e2) && e2 == e,
            },
    {
        match self.enter() {
            Err(e) => return Err(e),
            Ok(()) => {},
        }
        match self.lex.expect_token(start) {
            Err(e) => Err(e),
            Ok(_) => Ok(()),
        }
    }

    /// Read a member's key and the colon after it.
    fn read_key(&mut self, Ghost(q): Ghost<int>) -> (r: Result<String, LiteParseError>)
        requires
            old(self).lex.wf(),
            next_outcome(old(self).lex.input_bytes(), old(self).lex.offset(), old(self).lex.peeked_token())
                == scan_at(old(self).lex.input_bytes(), q),
            0 <= q <= old(self).lex.offset(),
        ensures
            final(self).lex.wf(),
            final(self).lex.input_bytes() == old(self).lex.input_bytes(),
            final(self).depth == old(self).depth,
            match member_key(old(self).lex.input_bytes(), q) {
                Ok((k, q2)) => r matches Ok(x) && x@ == k && final(self).lex.offset() == q2
                    && final(self).lex.peeked_token() is None && q < q2,
                Err(e) => r matches Err(e2) && e2 == e,
            },
    {
        let ghost d = self.lex.input_bytes();
        proof {
            lemma_scan_progress(d, q);
        }
        let k = match self.expect_string() {
            Err(e) => return Err(e),
            Ok(k) => k,
        };
        let ghost q1 = self.lex.offset();
        proof {
            lemma_scan_progress(d, q1);
        }
        match self.lex.expect_token(&Token::Colon) {
            Err(e) => Err(e),
            Ok(_) => Ok(k),
        }
    }

    /// What follows a member's value: `true` after a comma, `false` after
    /// the closing token `close` (both taken).
    fn read_sep(&mut self, close: &Token, expected: &'static str) -> (r: Result<bool, LiteParseError>)
        requires
            old(self).lex.wf(),
            old(self).lex.peeked_token() is None,
        ensures
            final(self).lex.wf(),
            final(self).lex.input_bytes() == old(self).lex.input_bytes(),
            final(self).depth == old(self).depth,
            match member_sep(old(self).lex.input_bytes(), old(self).lex.offset(), close@, expected) {
                Ok((more, q4)) => r == Ok::<bool, LiteParseError>(more) && final(self).lex.offset() == q4
                    && final(self).lex.peeked_token() is None,
                Err(e) => r matches Err(e2) && e2 == e,
            },
    {
        let ghost d = self.lex.input_bytes();
        let ghost q3 = self.lex.offset();
        let comma = self.peek_is(&Token::Comma);
        proof {
            if scan_at(d, q3) matches Ok((None, _)) {
                lemma_scan_at_end(d, q3);
            }
        }
        match comma {
            Err(e) => Err(e),
            Ok(true) => {
                let _ = self.lex.next_token();
                Ok(true)
            },
            Ok(false) => match self.peek_is(close) {
                Err(e) => Err(e),
                Ok(true) => {
                    let _ = self.lex.next_token();
                    Ok(false)
                },
                Ok(false) => Err(LiteParseError::ExpectedToken { expected, pos: self.pos() }),
            },
        }
    }

    /// Take a number token as the bits of its double.
    fn read_number(&mut self, nums: &Vec<(usize, u64)>) -> (r: Result<u64, LiteParseError>)
        requires
            old(self).lex.wf(),
        ensures
            final(self).lex.wf(),
            final(self).lex.input_bytes() == old(self).lex.input_bytes(),
            final(self).depth == old(self).depth,
            final(self).lex.peeked_token() is None,
            match number_at(
                nums@,
                next_outcome(old(self).lex.input_bytes(), old(self).lex.offset(), old(self).lex.peeked_token()),
            ) {
                Ok((b, q)) => r == Ok::<u64, LiteParseError>(b) && final(self).lex.offset() == q,
                Err(e) => r matches Err(e2) && e2 == e,
            },
    {
        match self.lex.next_token() {
            Err(e) => Err(e),
            Ok(Some(Token::Number(_))) | Ok(Some(Token::Integer(_))) => match lookup_number(
                nums,
                self.lex.position(),
            ) {
                Some(b) => Ok(b),
                None => Err(LiteParseError::InvalidNumber { pos: self.pos() }),
            },
            Ok(Some(_)) => Err(LiteParseError::ExpectedToken { expected: "number", pos: self.pos() }),
            Ok(None) => Err(LiteParseError::UnexpectedEof { pos: self.pos() }),
        }
    }

    /// Parse an [`OmiValue`] (null, bool, number, or string). A number is
    /// given the bits that the table `nums` holds for the offset at which
    /// its token ends.
    pub fn parse_omi_value(&mut self, nums: &Vec<(usize, u64)>) -> (r: Result<OmiValue, LiteParseError>)
        requires
            old(self).wf(),
        ensures
            final(self).wf(),
            final(self).lexer_state().input_bytes() == old(self).lexer_state().input_bytes(),
            final(self).depth_level() == old(self).depth_level(),
            final(self).lexer_state().peeked_token() is None,
            match omi_value_at(
                nums@,
                next_outcome(
                    old(self).lexer_state().input_bytes(),
                    old(self).lexer_state().offset(),
                    old(self).lexer_state().peeked_token(),
                ),
            ) {
                Ok((x, q)) => r matches Ok(v) && v@ == x && final(self).lexer_state().offset() == q,
                Err(e) => r matches Err(e2) && e2 == e,
            },
    {
        match self.lex.next_token() {
            Err(e) => Err(e),
            Ok(Some(Token::Null)) => Ok(OmiValue::Null),
            Ok(Some(Token::Bool(b))) => Ok(OmiValue::Bool(b)),
            Ok(Some(Token::String(s))) => Ok(OmiValue::Str(s)),
            Ok(Some(Token::Number(_))) | Ok(Some(Token::Integer(_))) => match lookup_number(
                nums,
                self.lex.position(),
            ) {
                Some(b) => Ok(OmiValue::Number(b)),
                None => Err(LiteParseError::InvalidNumber { pos: self.pos() }),
            },
            Ok(Some(_)) => Err(
                LiteParseError::ExpectedToken {
                    expected: "value (null, bool, number, or string)",
                    pos: self.pos(),
                },
            ),
            Ok(None) => Err(LiteParseError::UnexpectedEof { pos: self.pos() }),
        }
    }

    /// Read an optional string member value: `null` keeps `prev`.
    fn read_opt_string(&mut self, prev: Option<String>) -> (r: Result<Option<String>, LiteParseError>)
        requires
            old(self).lex.wf(),
            old(self).lex.peeked_token() is None,
        ensures
            final(self).lex.wf(),
            final(self).lex.input_bytes() == old(self).lex.input_bytes(),
            final(self).depth == old(self).depth,
            match opt_string_at(old(self).lex.input_bytes(), old(self).lex.offset(), opt_text(prev)) {
                Ok((x, q)) => r matches Ok(v) && opt_text(v) == x && final(self).lex.offset() == q
                    && final(self).lex.peeked_token() is None,
                Err(e) => r matches Err(e2) && e2 == e,
            },
    {
        let ghost d = self.lex.input_bytes();
        let ghost q2 = self.lex.offset();
        let null = self.peek_is(&Token::Null);
        proof {
            if scan_at(d, q2) matches Ok((None, _)) {
                lemma_scan_at_end(d, q2);
            }
        }
        match null {
            Err(e) => Err(e),
            Ok(true) => {
                let _ = self.lex.next_token();
                Ok(prev)
            },
            Ok(false) => match self.expect_string() {
                Err(e) => Err(e),
                Ok(s) => Ok(Some(s)),
            },
        }
    }
}


/// The model of an optional O-MI value.
pub open spec fn opt_omi(v: Option<OmiValue>) -> Option<OmiValueView> {
    match v {
        Some(x) => Some(x@),
        None => None,
    }
}

impl<'a> JsonParser<'a> {
    /// Parse a [`Value`] object: `{"v": <omi_value>, "t": <number or null>}`.
    /// Unknown fields are skipped; a missing `v` is an error.
    pub fn parse_value(&mut self, nums: &Vec<(usize, u64)>) -> (r: Result<Value, LiteParseError>)
        requires
            old(self).wf(),
            old(self).depth_level() + MAX_DEPTH < usize::MAX,
        ensures
            final(self).wf(),
            final(self).lexer_state().input_bytes() == old(self).lexer_state().input_bytes(),
            match value_at(
                old(self).lexer_state().input_bytes(),
                nums@,
                next_outcome(
                    old(self).lexer_state().input_bytes(),
                    old(self).lexer_state().offset(),
                    old(self).lexer_state().peeked_token(),
                ),
                old(self).lexer_state().offset(),
                old(self).depth_level(),
            ) {
                Ok((x, q)) => r matches Ok(v) && v@ == x && final(self).lexer_state().offset() == q
                    && final(self).lexer_state().peeked_token() is None && final(self).depth_level()
                    == old(self).depth_level() && q >= old(self).lexer_state().offset(),
                Err(e) => r matches Err(e2) && e2 == e,
            },
    {
        let ghost d = self.lex.input_bytes();
        let ghost dep: nat = (self.depth + 1) as nat;
        proof {
            lemma_scan_progress(d, self.lex.offset() as int);
        }
        let ghost whole = value_at(
            d,
            nums@,
            next_outcome(d, self.lex.offset(), self.lex.peeked_token()),
            self.lex.offset(),
            self.depth as nat,
        );
        match self.open(&Token::ObjectStart) {
            Err(e) => return Err(e),
            Ok(()) => {},
        }
        let ghost q0 = self.lex.offset();
        let obj_pos = self.pos();
        proof {
            lemma_scan_progress(d, q0);
        }
        match self.peek_is(&Token::ObjectEnd) {
            Err(e) => return Err(e),
            Ok(true) => {
                let _ = self.lex.next_token();
                self.leave();
                return Err(LiteParseError::MissingField { field: "v", pos: obj_pos });
            },
            Ok(false) => {},
        }
        proof {
            if scan_at(d, q0) matches Ok((None, _)) {
                lemma_scan_at_end(d, q0);
            }
        }
        let mut v: Option<OmiValue> = None;
        let mut t: Option<u64> = None;
        let ghost mut vq: int = q0;
        loop
            invariant
                self.lex.wf(),
                self.lex.input_bytes() == d,
                self.depth == dep,
                dep <= MAX_DEPTH,
                dep == old(self).depth + 1,
                d == old(self).lex.input_bytes(),
                whole == value_at(
                    d,
                    nums@,
                    next_outcome(d, old(self).lex.offset(), old(self).lex.peeked_token()),
                    old(self).lex.offset(),
                    old(self).depth as nat,
                ),
                whole == value_members(d, nums@, vq, dep, opt_omi(v), t, q0),
                next_outcome(d, self.lex.offset(), self.lex.peeked_token()) == scan_at(d, vq),
                0 <= q0 <= vq <= self.lex.offset() <= d.len(),
                old(self).lex.offset() <= q0,
                obj_pos == at_pos(q0),
            decreases d.len() - vq,
        {
            let ghost vq0 = vq;
            let ghost v0 = opt_omi(v);
            let ghost t0 = t;
            let key = match self.read_key(Ghost(vq)) {
                Err(e) => return Err(e),
                Ok(k) => k,
            };
            let ghost q2 = self.lex.offset();
            proof {
                lemma_scan_progress(d, q2);
            }
            if crate::text::str_eq(key.as_str(), "v") {
                match self.parse_omi_value(nums) {
                    Err(e) => return Err(e),
                    Ok(x) => {
                        v = Some(x);
                    },
                }
            } else if crate::text::str_eq(key.as_str(), "t") {
                let null = self.peek_is(&Token::Null);
                proof {
                    if scan_at(d, q2) matches Ok((None, _)) {
                        lemma_scan_at_end(d, q2);
                    }
                }
                match null {
                    Err(e) => return Err(e),
                    Ok(true) => {
                        let _ = self.lex.next_token();
                    },
                    Ok(false) => match self.read_number(nums) {
                        Err(e) => return Err(e),
                        Ok(b) => {
                            t = Some(b);
                        },
                    },
                }
            } else {
                match self.skip_value() {
                    Err(e) => return Err(e),
                    Ok(()) => {},
                }
            }
            let ghost q3 = self.lex.offset();
            proof {
                lemma_scan_progress(d, q3);
            }
            match self.read_sep(&Token::ObjectEnd, "',' or '}'") {
                Err(e) => return Err(e),
                Ok(true) => {
                    proof {
                        vq = self.lex.offset() as int;
                        assert(whole == value_members(d, nums@, vq0, dep, v0, t0, q0));
                    }
                },
                Ok(false) => {
                    self.leave();
                    return match v {
                        None => Err(LiteParseError::MissingField { field: "v", pos: obj_pos }),
                        Some(x) => Ok(Value::new(x, t)),
                    };
                },
            }
        }
    }
}


/// A history holding `values` (newest first), of capacity their number (at
/// least one): the oldest is pushed first.
fn ring_from(values: Vec<Value>) -> (rb: RingBuffer)
    ensures
        rb.wf(),
        rb.contents() == value_views(values@).reverse(),
        rb.cap() == ring_cap(values@.len()),
{
    let n = values.len();
    let cap = if n > 1 {
        n
    } else {
        1
    };
    let mut rb = RingBuffer::new(cap);
    let ghost vs = value_views(values@);
    let mut values = values;
    proof {
        assert(rb.contents() =~= vs.subrange(n as int, n as int).reverse());
        assert(value_views(values@) =~= vs.subrange(0, n as int));
    }
    while values.len() > 0
        invariant
            rb.wf(),
            rb.cap() == cap,
            cap >= n,
            cap == ring_cap(vs.len()),
            values.len() <= n,
            n == vs.len(),
            value_views(values@) == vs.subrange(0, values.len() as int),
            rb.contents() == vs.subrange(values.len() as int, n as int).reverse(),
        decreases values.len(),
    {
        let ghost k = values.len();
        let ghost before = values@;
        match values.pop() {
            Some(x) => {
                proof {
                    assert(value_views(before)[k - 1] == x@);
                    assert(vs[k - 1] == x@);
                }
                rb.push(x);
                proof {
                    assert(values@ =~= before.drop_last());
                    assert(value_views(values@) =~= vs.subrange(0, values.len() as int));
                    assert(rb.contents() =~= vs.subrange(values.len() as int, n as int).reverse());
                }
            },
            None => {},
        }
    }
    proof {
        assert(vs.subrange(0, n as int) =~= vs);
    }
    rb
}

/// Put `val` under `key` among sorted metadata entries.
fn put_meta(m: &mut Vec<(String, OmiValue)>, key: String, val: OmiValue)
    requires
        sorted_keys(entry_keys(old(m)@)),
    ensures
        sorted_keys(entry_keys(final(m)@)),
        meta_view(Some(*final(m))) == Some(
            entries_map(old(m)@, |x: OmiValue| omi_view(x)).insert(key@, val@),
        ),
{
    let ghost f = |x: OmiValue| omi_view(x);
    let ghost before = m@;
    proof {
        lemma_sorted_unique(entry_keys(before));
    }
    let ghost e = (key, val);
    let (p, prev) = put_entry(m, key, val);
    proof {
        match prev {
            Some(_) => {
                lemma_entries_map_update(before, f, p as int, e);
            },
            None => {
                lemma_entries_map_insert(before, f, p as int, e);
            },
        }
    }
}

impl<'a> JsonParser<'a> {
    /// Parse a [`RingBuffer`] from a JSON array of value objects, listed
    /// newest first as O-MI answers them. The buffer holds exactly those
    /// values, its capacity their number (at least one).
    pub fn parse_ring_buffer(&mut self, nums: &Vec<(usize, u64)>) -> (r: Result<RingBuffer, LiteParseError>)
        requires
            old(self).wf(),
            old(self).depth_level() + MAX_DEPTH < usize::MAX,
        ensures
            final(self).wf(),
            final(self).lexer_state().input_bytes() == old(self).lexer_state().input_bytes(),
            match ring_at(
                old(self).lexer_state().input_bytes(),
                nums@,
                next_outcome(
                    old(self).lexer_state().input_bytes(),
                    old(self).lexer_state().offset(),
                    old(self).lexer_state().peeked_token(),
                ),
                old(self).lexer_state().offset(),
                old(self).depth_level(),
            ) {
                Ok((vs, q)) => r matches Ok(rb) && rb.wf() && rb.contents() == vs.reverse() && rb.cap()
                    == ring_cap(vs.len()) && final(self).lexer_state().offset() == q
                    && final(self).lexer_state().peeked_token() is None && final(self).depth_level()
                    == old(self).depth_level() && q >= old(self).lexer_state().offset(),
                Err(e) => r matches Err(e2) && e2 == e,
            },
    {
        let ghost d = self.lex.input_bytes();
        let ghost dep: nat = (self.depth + 1) as nat;
        proof {
            lemma_scan_progress(d, self.lex.offset() as int);
        }
        let ghost whole = ring_at(
            d,
            nums@,
            next_outcome(d, self.lex.offset(), self.lex.peeked_token()),
            self.lex.offset(),
            self.depth as nat,
        );
        match self.open(&Token::ArrayStart) {
            Err(e) => return Err(e),
            Ok(()) => {},
        }
        let ghost q0 = self.lex.offset();
        proof {
            lemma_scan_progress(d, q0);
        }
        match self.peek_is(&Token::ArrayEnd) {
            Err(e) => return Err(e),
            Ok(true) => {
                let _ = self.lex.next_token();
                self.leave();
                let rb = ring_from(Vec::new());
                proof {
                    assert(value_views(Seq::<Value>::empty()) =~= Seq::<ValueView>::empty());
                }
                return Ok(rb);
            },
            Ok(false) => {},
        }
        proof {
            if scan_at(d, q0) matches Ok((None, _)) {
                lemma_scan_at_end(d, q0);
            }
            assert(value_views(Seq::<Value>::empty()) =~= Seq::<ValueView>::empty());
        }
        let mut values: Vec<Value> = Vec::new();
        let ghost mut vq: int = q0;
        loop
            invariant
                self.lex.wf(),
                self.lex.input_bytes() == d,
                self.depth == dep,
                dep <= MAX_DEPTH,
                dep == old(self).depth + 1,
                d == old(self).lex.input_bytes(),
                whole == ring_at(
                    d,
                    nums@,
                    next_outcome(d, old(self).lex.offset(), old(self).lex.peeked_token()),
                    old(self).lex.offset(),
                    old(self).depth as nat,
                ),
                whole == ring_elements(d, nums@, vq, dep, value_views(values@)),
                next_outcome(d, self.lex.offset(), self.lex.peeked_token()) == scan_at(d, vq),
                self.lex.offset() == (if values@.len() == 0 {
                    outcome_pos(d, scan_at(d, vq))
                } else {
                    vq
                }),
                0 <= q0 <= vq <= self.lex.offset() <= d.len(),
                old(self).lex.offset() <= q0,
            decreases d.len() - vq,
        {
            let ghost vq0 = vq;
            let ghost acc0 = value_views(values@);
            proof {
                lemma_scan_progress(d, vq);
            }
            let x = match self.parse_value(nums) {
                Err(e) => return Err(e),
                Ok(x) => x,
            };
            let ghost q3 = self.lex.offset();
            proof {
                lemma_scan_progress(d, q3);
            }
            values.push(x);
            proof {
                assert(value_views(values@) =~= acc0.push(x@));
            }
            match self.read_sep(&Token::ArrayEnd, "',' or ']'") {
                Err(e) => return Err(e),
                Ok(true) => {
                    proof {
                        vq = self.lex.offset() as int;
                        assert(whole == ring_elements(d, nums@, vq0, dep, acc0));
                    }
                },
                Ok(false) => {
                    self.leave();
                    return Ok(ring_from(values));
                },
            }
        }
    }

    /// Parse a metadata object: names to scalar O-MI values.
    fn parse_meta_map(&mut self, nums: &Vec<(usize, u64)>) -> (r: Result<Vec<(String, OmiValue)>, LiteParseError>)
        requires
            old(self).lex.wf(),
            old(self).depth + MAX_DEPTH < usize::MAX,
        ensures
            final(self).lex.wf(),
            final(self).lex.input_bytes() == old(self).lex.input_bytes(),
            match meta_at(
                old(self).lex.input_bytes(),
                nums@,
                next_outcome(old(self).lex.input_bytes(), old(self).lex.offset(), old(self).lex.peeked_token()),
                old(self).lex.offset(),
                old(self).depth as nat,
            ) {
                Ok((m, q)) => r matches Ok(v) && sorted_keys(entry_keys(v@)) && meta_view(Some(v)) == Some(m)
                    && final(self).lex.offset() == q && final(self).lex.peeked_token() is None
                    && final(self).depth == old(self).depth && q >= old(self).lex.offset(),
                Err(e) => r matches Err(e2) && e2 == e,
            },
    {
        let ghost d = self.lex.input_bytes();
        let ghost dep: nat = (self.depth + 1) as nat;
        proof {
            lemma_scan_progress(d, self.lex.offset() as int);
        }
        let ghost whole = meta_at(
            d,
            nums@,
            next_outcome(d, self.lex.offset(), self.lex.peeked_token()),
            self.lex.offset(),
            self.depth as nat,
        );
        match self.open(&Token::ObjectStart) {
            Err(e) => return Err(e),
            Ok(()) => {},
        }
        let ghost q0 = self.lex.offset();
        proof {
            lemma_scan_progress(d, q0);
        }
        let mut m: Vec<(String, OmiValue)> = Vec::new();
        proof {
            assert(entry_keys(m@) =~= Seq::<Seq<char>>::empty());
        }
        match self.peek_is(&Token::ObjectEnd) {
            Err(e) => return Err(e),
            Ok(true) => {
                let _ = self.lex.next_token();
                self.leave();
                return Ok(m);
            },
            Ok(false) => {},
        }
        proof {
            if scan_at(d, q0) matches Ok((None, _)) {
                lemma_scan_at_end(d, q0);
            }
        }
        let ghost mut vq: int = q0;
        loop
            invariant
                self.lex.wf(),
                self.lex.input_bytes() == d,
                self.depth == dep,
                dep <= MAX_DEPTH,
                dep == old(self).depth + 1,
                d == old(self).lex.input_bytes(),
                whole == meta_at(
                    d,
                    nums@,
                    next_outcome(d, old(self).lex.offset(), old(self).lex.peeked_token()),
                    old(self).lex.offset(),
                    old(self).depth as nat,
                ),
                sorted_keys(entry_keys(m@)),
                whole == meta_members(d, nums@, vq, entries_map(m@, |x: OmiValue| omi_view(x))),
                next_outcome(d, self.lex.offset(), self.lex.peeked_token()) == scan_at(d, vq),
                0 <= q0 <= vq <= self.lex.offset() <= d.len(),
                old(self).lex.offset() <= q0,
            decreases d.len() - vq,
        {
            let ghost vq0 = vq;
            let ghost acc0 = entries_map(m@, |x: OmiValue| omi_view(x));
            let key = match self.read_key(Ghost(vq)) {
                Err(e) => return Err(e),
                Ok(k) => k,
            };
            let ghost q2 = self.lex.offset();
            proof {
                lemma_scan_progress(d, q2);
            }
            let x = match self.parse_omi_value(nums) {
                Err(e) => return Err(e),
                Ok(x) => x,
            };
            let ghost q3 = self.lex.offset();
            proof {
                lemma_scan_progress(d, q3);
            }
            let ghost kv = key@;
            let ghost xv = x@;
            put_meta(&mut m, key, x);
            match self.read_sep(&Token::ObjectEnd, "',' or '}'") {
                Err(e) => return Err(e),
                Ok(true) => {
                    proof {
                        vq = self.lex.offset() as int;
                        assert(whole == meta_members(d, nums@, vq0, acc0));
                    }
                },
                Ok(false) => {
                    self.leave();
                    return Ok(m);
                },
            }
        }
    }
}


/// A history read from an array, tied to the values listed (newest first).
pub open spec fn history_matches(values: Option<RingBuffer>, g: Option<Seq<ValueView>>) -> bool {
    match g {
        Some(vs) => values matches Some(rb) && rb.wf() && rb.contents() == vs.reverse() && rb.cap()
            == ring_cap(vs.len()),
        None => values is None,
    }
}

impl<'a> JsonParser<'a> {
    /// Parse an [`InfoItem`] from a JSON object: `type`, `desc` and `meta`
    /// (each may be `null`) and `values` (required). Unknown fields are
    /// skipped.
    pub fn parse_info_item(&mut self, nums: &Vec<(usize, u64)>) -> (r: Result<InfoItem, LiteParseError>)
        requires
            old(self).wf(),
            old(self).depth_level() + MAX_DEPTH < usize::MAX,
        ensures
            final(self).wf(),
            final(self).lexer_state().input_bytes() == old(self).lexer_state().input_bytes(),
            match item_at(
                old(self).lexer_state().input_bytes(),
                nums@,
                next_outcome(
                    old(self).lexer_state().input_bytes(),
                    old(self).lexer_state().offset(),
                    old(self).lexer_state().peeked_token(),
                ),
                old(self).lexer_state().offset(),
                old(self).depth_level(),
            ) {
                Ok((x, q)) => r matches Ok(v) && v.wf() && v@ == x && final(self).lexer_state().offset() == q
                    && final(self).lexer_state().peeked_token() is None && final(self).depth_level()
                    == old(self).depth_level() && q >= old(self).lexer_state().offset(),
                Err(e) => r matches Err(e2) && e2 == e,
            },
    {
        let ghost d = self.lex.input_bytes();
        let ghost dep: nat = (self.depth + 1) as nat;
        proof {
            lemma_scan_progress(d, self.lex.offset() as int);
        }
        let ghost whole = item_at(
            d,
            nums@,
            next_outcome(d, self.lex.offset(), self.lex.peeked_token()),
            self.lex.offset(),
            self.depth as nat,
        );
        match self.open(&Token::ObjectStart) {
            Err(e) => return Err(e),
            Ok(()) => {},
        }
        let ghost q0 = self.lex.offset();
        let obj_pos = self.pos();
        proof {
            lemma_scan_progress(d, q0);
        }
        match self.peek_is(&Token::ObjectEnd) {
            Err(e) => return Err(e),
            Ok(true) => {
                let _ = self.lex.next_token();
                self.leave();
                return Err(LiteParseError::MissingField { field: "values", pos: obj_pos });
            },
            Ok(false) => {},
        }
        proof {
            if scan_at(d, q0) matches Ok((None, _)) {
                lemma_scan_at_end(d, q0);
            }
        }
        let mut type_uri: Option<String> = None;
        let mut desc: Option<String> = None;
        let mut meta: Option<Vec<(String, OmiValue)>> = None;
        let mut values: Option<RingBuffer> = None;
        let ghost mut gv: Option<Seq<ValueView>> = None;
        let ghost mut vq: int = q0;
        loop
            invariant
                self.lex.wf(),
                self.lex.input_bytes() == d,
                self.depth == dep,
                dep <= MAX_DEPTH,
                dep == old(self).depth + 1,
                d == old(self).lex.input_bytes(),
                whole == item_at(
                    d,
                    nums@,
                    next_outcome(d, old(self).lex.offset(), old(self).lex.peeked_token()),
                    old(self).lex.offset(),
                    old(self).depth as nat,
                ),
                whole == item_members(
                    d,
                    nums@,
                    vq,
                    dep,
                    opt_text(type_uri),
                    opt_text(desc),
                    meta_view(meta),
                    gv,
                    q0,
                ),
                meta matches Some(m) ==> sorted_keys(entry_keys(m@)),
                history_matches(values, gv),
                next_outcome(d, self.lex.offset(), self.lex.peeked_token()) == scan_at(d, vq),
                0 <= q0 <= vq <= self.lex.offset() <= d.len(),
                old(self).lex.offset() <= q0,
                obj_pos == at_pos(q0),
            decreases d.len() - vq,
        {
            let ghost vq0 = vq;
            let ghost t0 = opt_text(type_uri);
            let ghost d0 = opt_text(desc);
            let ghost m0 = meta_view(meta);
            let ghost g0 = gv;
            let key = match self.read_key(Ghost(vq)) {
                Err(e) => return Err(e),
                Ok(k) => k,
            };
            let ghost q2 = self.lex.offset();
            proof {
                lemma_scan_progress(d, q2);
            }
            if crate::text::str_eq(key.as_str(), "type") {
                let prev = type_uri.take();
                match self.read_opt_string(prev) {
                    Err(e) => return Err(e),
                    Ok(x) => {
                        type_uri = x;
                    },
                }
            } else if crate::text::str_eq(key.as_str(), "desc") {
                let prev = desc.take();
                match self.read_opt_string(prev) {
                    Err(e) => return Err(e),
                    Ok(x) => {
                        desc = x;
                    },
                }
            } else if crate::text::str_eq(key.as_str(), "meta") {
                let null = self.peek_is(&Token::Null);
                proof {
                    if scan_at(d, q2) matches Ok((None, _)) {
                        lemma_scan_at_end(d, q2);
                    }
                }
                match null {
                    Err(e) => return Err(e),
                    Ok(true) => {
                        let _ = self.lex.next_token();
                    },
                    Ok(false) => match self.parse_meta_map(nums) {
                        Err(e) => return Err(e),
                        Ok(m) => {
                            meta = Some(m);
                        },
                    },
                }
            } else if crate::text::str_eq(key.as_str(), "values") {
                match self.parse_ring_buffer(nums) {
                    Err(e) => return Err(e),
                    Ok(rb) => {
                        proof {
                            gv = Some(
                                ring_at(d, nums@, scan_at(d, q2), q2, dep)->Ok_0.0,
                            );
                        }
                        values = Some(rb);
                    },
                }
            } else {
                match self.skip_value() {
                    Err(e) => return Err(e),
                    Ok(()) => {},
                }
            }
            let ghost q3 = self.lex.offset();
            proof {
                lemma_scan_progress(d, q3);
            }
            match self.read_sep(&Token::ObjectEnd, "',' or '}'") {
                Err(e) => return Err(e),
                Ok(true) => {
                    proof {
                        vq = self.lex.offset() as int;
                        assert(whole == item_members(d, nums@, vq0, dep, t0, d0, m0, g0, q0));
                    }
                },
                Ok(false) => {
                    self.leave();
                    return match values {
                        None => Err(LiteParseError::MissingField { field: "values", pos: obj_pos }),
                        Some(rb) => Ok(InfoItem { type_uri, desc, meta, values: rb }),
                    };
                },
            }
        }
    }

    /// Parse an items object: names to [`InfoItem`]s, kept sorted by name.
    fn parse_items_map(&mut self, nums: &Vec<(usize, u64)>) -> (r: Result<Vec<(String, InfoItem)>, LiteParseError>)
        requires
            old(self).lex.wf(),
            old(self).depth + MAX_DEPTH < usize::MAX,
        ensures
            final(self).lex.wf(),
            final(self).lex.input_bytes() == old(self).lex.input_bytes(),
            match items_at(
                old(self).lex.input_bytes(),
                nums@,
                next_outcome(old(self).lex.input_bytes(), old(self).lex.offset(), old(self).lex.peeked_token()),
                old(self).lex.offset(),
                old(self).depth as nat,
            ) {
                Ok((m, q)) => r matches Ok(v) && items_wf(v@) && items_map(v@) == m && final(self).lex.offset()
                    == q && final(self).lex.peeked_token() is None && final(self).depth == old(self).depth
                    && q >= old(self).lex.offset(),
                Err(e) => r matches Err(e2) && e2 == e,
            },
    {
        let ghost d = self.lex.input_bytes();
        let ghost dep: nat = (self.depth + 1) as nat;
        proof {
            lemma_scan_progress(d, self.lex.offset() as int);
        }
        let ghost whole = items_at(
            d,
            nums@,
            next_outcome(d, self.lex.offset(), self.lex.peeked_token()),
            self.lex.offset(),
            self.depth as nat,
        );
        match self.open(&Token::ObjectStart) {
            Err(e) => return Err(e),
            Ok(()) => {},
        }
        let ghost q0 = self.lex.offset();
        proof {
            lemma_scan_progress(d, q0);
        }
        match self.peek_is(&Token::ObjectEnd) {
            Err(e) => return Err(e),
            Ok(true) => {
                let _ = self.lex.next_token();
                self.leave();
                let v: Vec<(String, InfoItem)> = Vec::new();
                proof {
                    assert(entry_keys(v@) =~= Seq::<Seq<char>>::empty());
                }
                return Ok(v);
            },
            Ok(false) => {},
        }
        proof {
            if scan_at(d, q0) matches Ok((None, _)) {
                lemma_scan_at_end(d, q0);
            }
        }
        let mut holder = Object::new("");
        let ghost mut vq: int = q0;
        loop
            invariant
                self.lex.wf(),
                self.lex.input_bytes() == d,
                self.depth == dep,
                dep <= MAX_DEPTH,
                dep == old(self).depth + 1,
                d == old(self).lex.input_bytes(),
                whole == items_at(
                    d,
                    nums@,
                    next_outcome(d, old(self).lex.offset(), old(self).lex.peeked_token()),
                    old(self).lex.offset(),
                    old(self).depth as nat,
                ),
                holder.wf(),
                whole == items_members(d, nums@, vq, dep, or_empty(holder@.items)),
                next_outcome(d, self.lex.offset(), self.lex.peeked_token()) == scan_at(d, vq),
                0 <= q0 <= vq <= self.lex.offset() <= d.len(),
                old(self).lex.offset() <= q0,
            decreases d.len() - vq,
        {
            let ghost vq0 = vq;
            let ghost acc0 = or_empty(holder@.items);
            let key = match self.read_key(Ghost(vq)) {
                Err(e) => return Err(e),
                Ok(k) => k,
            };
            let ghost q2 = self.lex.offset();
            proof {
                lemma_scan_progress(d, q2);
            }
            let item = match self.parse_info_item(nums) {
                Err(e) => return Err(e),
                Ok(x) => x,
            };
            let ghost q3 = self.lex.offset();
            proof {
                lemma_scan_progress(d, q3);
            }
            holder.add_item(key, item);
            match self.read_sep(&Token::ObjectEnd, "',' or '}'") {
                Err(e) => return Err(e),
                Ok(true) => {
                    proof {
                        vq = self.lex.offset() as int;
                        assert(whole == items_members(d, nums@, vq0, dep, acc0));
                    }
                },
                Ok(false) => {
                    self.leave();
                    return match holder.items {
                        Some(v) => Ok(v),
                        None => Ok(Vec::new()),
                    };
                },
            }
        }
    }
}


/// An object's model with its id set aside (as the parse reads it).
pub open spec fn fields_of(o: ObjectView) -> ObjectView {
    ObjectView { id: Seq::empty(), ..o }
}

impl<'a> JsonParser<'a> {
    /// Parse an [`Object`] from a JSON object: `id` (required), `type`,
    /// `desc`, `items` and `objects` (each may be `null`). Unknown fields are
    /// skipped.
    pub fn parse_object(&mut self, nums: &Vec<(usize, u64)>) -> (r: Result<Object, LiteParseError>)
        requires
            old(self).wf(),
            old(self).depth_level() + MAX_DEPTH < usize::MAX,
        ensures
            final(self).wf(),
            final(self).lexer_state().input_bytes() == old(self).lexer_state().input_bytes(),
            match object_at(
                old(self).lexer_state().input_bytes(),
                nums@,
                next_outcome(
                    old(self).lexer_state().input_bytes(),
                    old(self).lexer_state().offset(),
                    old(self).lexer_state().peeked_token(),
                ),
                old(self).lexer_state().offset(),
                old(self).depth_level(),
            ) {
                Ok((x, q)) => r matches Ok(v) && v.wf() && v@ == x && final(self).lexer_state().offset() == q
                    && final(self).lexer_state().peeked_token() is None && final(self).depth_level()
                    == old(self).depth_level() && q >= old(self).lexer_state().offset(),
                Err(e) => r matches Err(e2) && e2 == e,
            },
        decreases lex_measure(old(self).lexer_state()),
    {
        let ghost d = self.lex.input_bytes();
        let ghost dep: nat = (self.depth + 1) as nat;
        proof {
            lemma_scan_progress(d, self.lex.offset() as int);
        }
        let ghost whole = object_at(
            d,
            nums@,
            next_outcome(d, self.lex.offset(), self.lex.peeked_token()),
            self.lex.offset(),
            self.depth as nat,
        );
        match self.open(&Token::ObjectStart) {
            Err(e) => return Err(e),
            Ok(()) => {},
        }
        let ghost q0 = self.lex.offset();
        let obj_pos = self.pos();
        proof {
            lemma_scan_progress(d, q0);
        }
        match self.peek_is(&Token::ObjectEnd) {
            Err(e) => return Err(e),
            Ok(true) => {
                let _ = self.lex.next_token();
                self.leave();
                return Err(LiteParseError::MissingField { field: "id", pos: obj_pos });
            },
            Ok(false) => {},
        }
        proof {
            if scan_at(d, q0) matches Ok((None, _)) {
                lemma_scan_at_end(d, q0);
            }
        }
        let mut id: Option<String> = None;
        let mut obj = Object::new("");
        let ghost mut vq: int = q0;
        loop
            invariant
                self.lex.wf(),
                self.lex.input_bytes() == d,
                self.depth == dep,
                dep <= MAX_DEPTH,
                dep == old(self).depth + 1,
                d == old(self).lex.input_bytes(),
                whole == object_at(
                    d,
                    nums@,
                    next_outcome(d, old(self).lex.offset(), old(self).lex.peeked_token()),
                    old(self).lex.offset(),
                    old(self).depth as nat,
                ),
                obj.wf(),
                whole == object_members(d, nums@, vq, dep, opt_text(id), fields_of(obj@), q0),
                next_outcome(d, self.lex.offset(), self.lex.peeked_token()) == scan_at(d, vq),
                0 <= q0 <= vq <= self.lex.offset() <= d.len(),
                old(self).lex.offset() <= q0,
                lex_measure(old(self).lex) >= d.len() - q0 + 1,
                obj_pos == at_pos(q0),
            decreases d.len() - vq,
        {
            let ghost vq0 = vq;
            let ghost id0 = opt_text(id);
            let ghost acc0 = fields_of(obj@);
            let key = match self.read_key(Ghost(vq)) {
                Err(e) => return Err(e),
                Ok(k) => k,
            };
            let ghost q2 = self.lex.offset();
            proof {
                lemma_scan_progress(d, q2);
            }
            if crate::text::str_eq(key.as_str(), "id") {
                match self.expect_string() {
                    Err(e) => return Err(e),
                    Ok(x) => {
                        id = Some(x);
                    },
                }
            } else if crate::text::str_eq(key.as_str(), "type") {
                let prev = obj.type_uri.take();
                match self.read_opt_string(prev) {
                    Err(e) => return Err(e),
                    Ok(x) => {
                        obj.type_uri = x;
                    },
                }
            } else if crate::text::str_eq(key.as_str(), "desc") {
                let prev = obj.desc.take();
                match self.read_opt_string(prev) {
                    Err(e) => return Err(e),
                    Ok(x) => {
                        obj.desc = x;
                    },
                }
            } else if crate::text::str_eq(key.as_str(), "items") {
                let null = self.peek_is(&Token::Null);
                proof {
                    if scan_at(d, q2) matches Ok((None, _)) {
                        lemma_scan_at_end(d, q2);
                    }
                }
                match null {
                    Err(e) => return Err(e),
                    Ok(true) => {
                        let _ = self.lex.next_token();
                    },
                    Ok(false) => match self.parse_items_map(nums) {
                        Err(e) => return Err(e),
                        Ok(v) => {
                            obj.items = Some(v);
                        },
                    },
                }
            } else if crate::text::str_eq(key.as_str(), "objects") {
                let null = self.peek_is(&Token::Null);
                proof {
                    if scan_at(d, q2) matches Ok((None, _)) {
                        lemma_scan_at_end(d, q2);
                    }
                }
                match null {
                    Err(e) => return Err(e),
                    Ok(true) => {
                        let _ = self.lex.next_token();
                    },
                    Ok(false) => match self.parse_objects_map(nums) {
                        Err(e) => return Err(e),
                        Ok(v) => {
                            obj.objects = Some(v);
                        },
                    },
                }
            } else {
                match self.skip_value() {
                    Err(e) => return Err(e),
                    Ok(()) => {},
                }
            }
            let ghost q3 = self.lex.offset();
            proof {
                lemma_scan_progress(d, q3);
            }
            match self.read_sep(&Token::ObjectEnd, "',' or '}'") {
                Err(e) => return Err(e),
                Ok(true) => {
                    proof {
                        vq = self.lex.offset() as int;
                        assert(whole == object_members(d, nums@, vq0, dep, id0, acc0, q0));
                    }
                },
                Ok(false) => {
                    self.leave();
                    return match id {
                        None => Err(LiteParseError::MissingField { field: "id", pos: obj_pos }),
                        Some(x) => {
                            obj.id = x;
                            Ok(obj)
                        },
                    };
                },
            }
        }
    }

    /// Parse an objects object: names to [`Object`]s, kept sorted by name.
    pub fn parse_objects_map(&mut self, nums: &Vec<(usize, u64)>) -> (r: Result<Vec<(String, Object)>, LiteParseError>)
        requires
            old(self).wf(),
            old(self).depth_level() + MAX_DEPTH < usize::MAX,
        ensures
            final(self).wf(),
            final(self).lexer_state().input_bytes() == old(self).lexer_state().input_bytes(),
            match objects_at(
                old(self).lexer_state().input_bytes(),
                nums@,
                next_outcome(
                    old(self).lexer_state().input_bytes(),
                    old(self).lexer_state().offset(),
                    old(self).lexer_state().peeked_token(),
                ),
                old(self).lexer_state().offset(),
                old(self).depth_level(),
            ) {
                Ok((m, q)) => r matches Ok(v) && sorted_keys(entry_keys(v@)) && children_wf(v@) && child_map(v@)
                    == m && final(self).lexer_state().offset() == q
                    && final(self).lexer_state().peeked_token() is None && final(self).depth_level()
                    == old(self).depth_level() && q >= old(self).lexer_state().offset(),
                Err(e) => r matches Err(e2) && e2 == e,
            },
        decreases lex_measure(old(self).lexer_state()),
    {
        let ghost d = self.lex.input_bytes();
        let ghost dep: nat = (self.depth + 1) as nat;
        proof {
            lemma_scan_progress(d, self.lex.offset() as int);
        }
        let ghost whole = objects_at(
            d,
            nums@,
            next_outcome(d, self.lex.offset(), self.lex.peeked_token()),
            self.lex.offset(),
            self.depth as nat,
        );
        match self.open(&Token::ObjectStart) {
            Err(e) => return Err(e),
            Ok(()) => {},
        }
        let ghost q0 = self.lex.offset();
        proof {
            lemma_scan_progress(d, q0);
        }
        match self.peek_is(&Token::ObjectEnd) {
            Err(e) => return Err(e),
            Ok(true) => {
                let _ = self.lex.next_token();
                self.leave();
                let v: Vec<(String, Object)> = Vec::new();
                proof {
                    assert(entry_keys(v@) =~= Seq::<Seq<char>>::empty());
                }
                return Ok(v);
            },
            Ok(false) => {},
        }
        proof {
            if scan_at(d, q0) matches Ok((None, _)) {
                lemma_scan_at_end(d, q0);
            }
        }
        let mut holder = Object::new("");
        let ghost mut vq: int = q0;
        loop
            invariant
                self.lex.wf(),
                self.lex.input_bytes() == d,
                self.depth == dep,
                dep <= MAX_DEPTH,
                dep == old(self).depth + 1,
                d == old(self).lex.input_bytes(),
                whole == objects_at(
                    d,
                    nums@,
                    next_outcome(d, old(self).lex.offset(), old(self).lex.peeked_token()),
                    old(self).lex.offset(),
                    old(self).depth as nat,
                ),
                holder.wf(),
                whole == objects_members(d, nums@, vq, dep, or_empty(holder@.objects)),
                next_outcome(d, self.lex.offset(), self.lex.peeked_token()) == scan_at(d, vq),
                0 <= q0 <= vq <= self.lex.offset() <= d.len(),
                old(self).lex.offset() <= q0,
                lex_measure(old(self).lex) >= d.len() - q0 + 1,
            decreases d.len() - vq,
        {
            let ghost vq0 = vq;
            let ghost acc0 = or_empty(holder@.objects);
            let key = match self.read_key(Ghost(vq)) {
                Err(e) => return Err(e),
                Ok(k) => k,
            };
            let ghost q2 = self.lex.offset();
            proof {
                lemma_scan_progress(d, q2);
            }
            let child = match self.parse_object(nums) {
                Err(e) => return Err(e),
                Ok(x) => x,
            };
            let ghost q3 = self.lex.offset();
            proof {
                lemma_scan_progress(d, q3);
            }
            holder.put_child(key, child);
            match self.read_sep(&Token::ObjectEnd, "',' or '}'") {
                Err(e) => return Err(e),
                Ok(true) => {
                    proof {
                        vq = self.lex.offset() as int;
                        assert(whole == objects_members(d, nums@, vq0, dep, acc0));
                    }
                },
                Ok(false) => {
                    self.leave();
                    return match holder.objects {
                        Some(v) => Ok(v),
                        None => Ok(Vec::new()),
                    };
                },
            }
        }
    }
}


/// The models of offset-token pairs.
pub open spec fn token_entries(s: Seq<(usize, Token)>) -> Seq<(int, TokenView)> {
    s.map_values(|e: (usize, Token)| (e.0 as int, e.1@))
}

/// The number tokens of `input`, met lexing it from the start up to its end
/// or the first lexical error, each with the offset at which it ends: what
/// the number table handed to the parser is made from.
pub fn number_literals(input: &[u8]) -> (r: Vec<(usize, Token)>)
    ensures
        token_entries(r@) == number_tokens_from(input@, 0),
{
    let ghost d = input@;
    let mut lex = Lexer::new(input);
    let mut out: Vec<(usize, Token)> = Vec::new();
    proof {
        assert(token_entries(out@) =~= Seq::<(int, TokenView)>::empty());
        assert(Seq::<(int, TokenView)>::empty() + number_tokens_from(d, 0) =~= number_tokens_from(d, 0));
    }
    loop
        invariant
            lex.wf(),
            lex.input_bytes() == d,
            d == input@,
            lex.peeked_token() is None,
            number_tokens_from(d, 0) == token_entries(out@)
                + number_tokens_from(d, lex.offset()),
        decreases d.len() - lex.offset(),
    {
        let ghost p = lex.offset();
        let ghost before = token_entries(out@);
        proof {
            lemma_scan_progress(d, p);
        }
        match lex.next_token() {
            Ok(Some(t)) => {
                let is_num = match &t {
                    Token::Number(_) => true,
                    Token::Integer(_) => true,
                    _ => false,
                };
                let ghost tv = t@;
                if is_num {
                    let q = lex.position();
                    out.push((q, t));
                    proof {
                        assert(token_entries(out@) =~= before + seq![(q as int, tv)]);
                        assert(before + number_tokens_from(d, p) =~= (before + seq![(q as int, tv)]) + number_tokens_from(d, q as int));
                    }
                }
            },
            _ => {
                proof {
                    assert(before + number_tokens_from(d, p) =~= before);
                }
                return out;
            },
        }
    }
}

/// Reading a whole input as one value of this type, given the number table
/// of the input (offsets at which number tokens end, with the bits of their
/// doubles): anything but whitespace after the value is an error.
pub trait FromJson: Sized {
    fn from_json_bytes(input: &[u8], nums: &Vec<(usize, u64)>) -> Result<Self, LiteParseError>;
}

impl<'a> JsonParser<'a> {
    /// After a value: an error unless only whitespace is left.
    fn finish(&mut self) -> (r: Result<(), LiteParseError>)
        requires
            old(self).lex.wf(),
            old(self).lex.peeked_token() is None,
        ensures
            r == (if ws_end(old(self).lex.input_bytes(), old(self).lex.offset()) >= old(self).lex.input_bytes().len() {
                Ok::<(), LiteParseError>(())
            } else {
                Err(LiteParseError::TrailingData {
                    pos: at_pos(ws_end(old(self).lex.input_bytes(), old(self).lex.offset())),
                })
            }),
    {
        if !self.is_eof() {
            return Err(LiteParseError::TrailingData { pos: self.pos() });
        }
        Ok(())
    }
}

impl FromJson for OmiValue {
    fn from_json_bytes(input: &[u8], nums: &Vec<(usize, u64)>) -> (r: Result<Self, LiteParseError>)
        ensures
            match whole_input(input@, omi_value_at(nums@, scan_at(input@, 0))) {
                Ok(x) => r matches Ok(v) && v@ == x,
                Err(e) => r matches Err(e2) && e2 == e,
            },
    {
        let mut p = JsonParser::new(input);
        let v = match p.parse_omi_value(nums) {
            Err(e) => return Err(e),
            Ok(v) => v,
        };
        match p.finish() {
            Err(e) => Err(e),
            Ok(()) => Ok(v),
        }
    }
}

impl FromJson for Value {
    fn from_json_bytes(input: &[u8], nums: &Vec<(usize, u64)>) -> (r: Result<Self, LiteParseError>)
        ensures
            match whole_input(input@, value_at(input@, nums@, scan_at(input@, 0), 0, 0)) {
                Ok(x) => r matches Ok(v) && v@ == x,
                Err(e) => r matches Err(e2) && e2 == e,
            },
    {
        let mut p = JsonParser::new(input);
        let v = match p.parse_value(nums) {
            Err(e) => return Err(e),
            Ok(v) => v,
        };
        match p.finish() {
            Err(e) => Err(e),
            Ok(()) => Ok(v),
        }
    }
}

impl FromJson for RingBuffer {
    fn from_json_bytes(input: &[u8], nums: &Vec<(usize, u64)>) -> (r: Result<Self, LiteParseError>)
        ensures
            match whole_input(input@, ring_at(input@, nums@, scan_at(input@, 0), 0, 0)) {
                Ok(vs) => r matches Ok(rb) && rb.wf() && rb.contents() == vs.reverse() && rb.cap()
                    == ring_cap(vs.len()),
                Err(e) => r matches Err(e2) && e2 == e,
            },
    {
        let mut p = JsonParser::new(input);
        let v = match p.parse_ring_buffer(nums) {
            Err(e) => return Err(e),
            Ok(v) => v,
        };
        match p.finish() {
            Err(e) => Err(e),
            Ok(()) => Ok(v),
        }
    }
}

impl FromJson for InfoItem {
    fn from_json_bytes(input: &[u8], nums: &Vec<(usize, u64)>) -> (r: Result<Self, LiteParseError>)
        ensures
            match whole_input(input@, item_at(input@, nums@, scan_at(input@, 0), 0, 0)) {
                Ok(x) => r matches Ok(v) && v.wf() && v@ == x,
                Err(e) => r matches Err(e2) && e2 == e,
            },
    {
        let mut p = JsonParser::new(input);
        let v = match p.parse_info_item(nums) {
            Err(e) => return Err(e),
            Ok(v) => v,
        };
        match p.finish() {
            Err(e) => Err(e),
            Ok(()) => Ok(v),
        }
    }
}

impl FromJson for Object {
    fn from_json_bytes(input: &[u8], nums: &Vec<(usize, u64)>) -> (r: Result<Self, LiteParseError>)
        ensures
            match whole_input(input@, object_at(input@, nums@, scan_at(input@, 0), 0, 0)) {
                Ok(x) => r matches Ok(v) && v.wf() && v@ == x,
                Err(e) => r matches Err(e2) && e2 == e,
            },
    {
        let mut p = JsonParser::new(input);
        let v = match p.parse_object(nums) {
            Err(e) => return Err(e),
            Ok(v) => v,
        };
        match p.finish() {
            Err(e) => Err(e),
            Ok(()) => Ok(v),
        }
    }
}


/// The whole number that the table gives for the number token ending at `q`.
fn lookup_whole(wholes: &Vec<(usize, i64)>, q: usize) -> (r: Option<i64>)
    ensures
        r == whole_at(wholes@, q as int),
{
    let mut i: usize = 0;
    assert(wholes@.skip(0) =~= wholes@);
    while i < wholes.len()
        invariant
            i <= wholes.len(),
            whole_at(wholes@, q as int) == whole_at(wholes@.skip(i as int), q as int),
        decreases wholes.len() - i,
    {
        if wholes[i].0 == q {
            return Some(wholes[i].1);
        }
        assert(wholes@.skip(i as int).drop_first() =~= wholes@.skip(i as int + 1));
        i = i + 1;
    }
    assert(wholes@.skip(i as int).len() == 0);
    None
}

impl<'a> JsonParser<'a> {
    /// Take an integer token (or a number token denoting a whole number).
    fn read_int(&mut self, wholes: &Vec<(usize, i64)>) -> (r: Result<i64, LiteParseError>)
        requires
            old(self).lex.wf(),
        ensures
            final(self).lex.wf(),
            final(self).lex.input_bytes() == old(self).lex.input_bytes(),
            final(self).depth == old(self).depth,
            final(self).lex.peeked_token() is None,
            match int_at(
                wholes@,
                next_outcome(old(self).lex.input_bytes(), old(self).lex.offset(), old(self).lex.peeked_token()),
            ) {
                Ok((i, q)) => r == Ok::<i64, LiteParseError>(i) && final(self).lex.offset() == q,
                Err(e) => r matches Err(e2) && e2 == e,
            },
    {
        match self.lex.next_token() {
            Err(e) => Err(e),
            Ok(Some(Token::Integer(i))) => Ok(i),
            Ok(Some(Token::Number(_))) => match lookup_whole(wholes, self.lex.position()) {
                Some(i) => Ok(i),
                None => Err(LiteParseError::ExpectedToken { expected: "integer", pos: self.pos() }),
            },
            _ => Err(LiteParseError::ExpectedToken { expected: "integer", pos: self.pos() }),
        }
    }

    /// Take a non-negative integer.
    fn read_uint(&mut self, wholes: &Vec<(usize, i64)>) -> (r: Result<u64, LiteParseError>)
        requires
            old(self).lex.wf(),
        ensures
            final(self).lex.wf(),
            final(self).lex.input_bytes() == old(self).lex.input_bytes(),
            final(self).depth == old(self).depth,
            final(self).lex.peeked_token() is None,
            match uint_at(
                wholes@,
                next_outcome(old(self).lex.input_bytes(), old(self).lex.offset(), old(self).lex.peeked_token()),
            ) {
                Ok((i, q)) => r == Ok::<u64, LiteParseError>(i) && final(self).lex.offset() == q,
                Err(e) => r matches Err(e2) && e2 == e,
            },
    {
        let i = match self.read_int(wholes) {
            Err(e) => return Err(e),
            Ok(i) => i,
        };
        if i < 0 {
            Err(LiteParseError::ExpectedToken { expected: "non-negative integer", pos: self.pos() })
        } else {
            Ok(i as u64)
        }
    }

    /// Take a status code (at most 65535); `expected` names it in the error.
    fn read_status(&mut self, wholes: &Vec<(usize, i64)>, expected: &'static str) -> (r: Result<u16, LiteParseError>)
        requires
            old(self).lex.wf(),
        ensures
            final(self).lex.wf(),
            final(self).lex.input_bytes() == old(self).lex.input_bytes(),
            final(self).depth == old(self).depth,
            final(self).lex.peeked_token() is None,
            match status_at(
                wholes@,
                next_outcome(old(self).lex.input_bytes(), old(self).lex.offset(), old(self).lex.peeked_token()),
                expected,
            ) {
                Ok((i, q)) => r == Ok::<u16, LiteParseError>(i) && final(self).lex.offset() == q,
                Err(e) => r matches Err(e2) && e2 == e,
            },
    {
        let n = match self.read_uint(wholes) {
            Err(e) => return Err(e),
            Ok(n) => n,
        };
        if n > 65535 {
            Err(LiteParseError::ExpectedToken { expected, pos: self.pos() })
        } else {
            Ok(n as u16)
        }
    }

    /// The fields of a read operation whose `{` was just taken.
    fn read_op_fields(&mut self, nums: &Vec<(usize, u64)>, wholes: &Vec<(usize, i64)>) -> (r: Result<ReadOp, LiteParseError>)
        requires
            old(self).lex.wf(),
            old(self).lex.peeked_token() is None,
            old(self).depth == 0,
        ensures
            final(self).lex.wf(),
            final(self).lex.input_bytes() == old(self).lex.input_bytes(),
            match fields_body(
                old(self).lex.input_bytes(),
                old(self).lex.offset(),
                no_read_fields(),
                read_field(old(self).lex.input_bytes(), nums@, wholes@),
                lift_lite(),
            ) {
                Ok((x, q)) => r matches Ok(v) && v@ == x && final(self).lex.offset() == q
                    && final(self).lex.peeked_token() is None && final(self).depth == 0
                    && q > old(self).lex.offset(),
                Err(e) => r matches Err(e2) && e2 == e,
            },
    {
        let ghost d = self.lex.input_bytes();
        let ghost q0 = self.lex.offset();
        let mut op = ReadOp {
            path: None,
            rid: None,
            newest: None,
            oldest: None,
            begin: None,
            end: None,
            depth: None,
            interval: None,
            callback: None,
        };
        let ghost whole = fields_body(d, q0, op@, read_field(d, nums@, wholes@), lift_lite());
        proof {
            lemma_scan_progress(d, q0);
        }
        match self.peek_is(&Token::ObjectEnd) {
            Err(e) => return Err(e),
            Ok(true) => {
                let _ = self.lex.next_token();
                return Ok(op);
            },
            Ok(false) => {},
        }
        proof {
            if scan_at(d, q0) matches Ok((None, _)) {
                lemma_scan_at_end(d, q0);
            }
        }
        let ghost mut vq: int = q0;
        loop
            invariant
                self.lex.wf(),
                self.lex.input_bytes() == d,
                self.depth == 0,
                d == old(self).lex.input_bytes(),
                q0 == old(self).lex.offset(),
                whole == fields_body(d, q0, no_read_fields(), read_field(d, nums@, wholes@), lift_lite()),
                whole == members(d, vq, op@, read_field(d, nums@, wholes@), lift_lite()),
                next_outcome(d, self.lex.offset(), self.lex.peeked_token()) == scan_at(d, vq),
                0 <= q0 <= vq <= self.lex.offset() <= d.len(),
            decreases d.len() - vq,
        {
            let ghost vq0 = vq;
            let ghost a0 = op@;
            let key = match self.read_key(Ghost(vq)) {
                Err(e) => return Err(e),
                Ok(k) => k,
            };
            let ghost q2 = self.lex.offset();
            proof {
                lemma_scan_progress(d, q2);
            }
            if crate::text::str_eq(key.as_str(), "path") {
                match self.expect_string() {
                    Err(e) => return Err(e),
                    Ok(x) => {
                        op.path = Some(x);
                    },
                }
            } else if crate::text::str_eq(key.as_str(), "rid") {
                match self.expect_string() {
                    Err(e) => return Err(e),
                    Ok(x) => {
                        op.rid = Some(x);
                    },
                }
            } else if crate::text::str_eq(key.as_str(), "newest") {
                match self.read_uint(wholes) {
                    Err(e) => return Err(e),
                    Ok(x) => {
                        op.newest = Some(x);
                    },
                }
            } else if crate::text::str_eq(key.as_str(), "oldest") {
                match self.read_uint(wholes) {
                    Err(e) => return Err(e),
                    Ok(x) => {
                        op.oldest = Some(x);
                    },
                }
            } else if crate::text::str_eq(key.as_str(), "begin") {
                match self.read_number(nums) {
                    Err(e) => return Err(e),
                    Ok(x) => {
                        op.begin = Some(x);
                    },
                }
            } else if crate::text::str_eq(key.as_str(), "end") {
                match self.read_number(nums) {
                    Err(e) => return Err(e),
                    Ok(x) => {
                        op.end = Some(x);
                    },
                }
            } else if crate::text::str_eq(key.as_str(), "depth") {
                match self.read_uint(wholes) {
                    Err(e) => return Err(e),
                    Ok(x) => {
                        op.depth = Some(x);
                    },
                }
            } else if crate::text::str_eq(key.as_str(), "interval") {
                match self.read_number(nums) {
                    Err(e) => return Err(e),
                    Ok(x) => {
                        op.interval = Some(x);
                    },
                }
            } else if crate::text::str_eq(key.as_str(), "callback") {
                match self.expect_string() {
                    Err(e) => return Err(e),
                    Ok(x) => {
                        op.callback = Some(x);
                    },
                }
            } else {
                match self.skip_value() {
                    Err(e) => return Err(e),
                    Ok(()) => {},
                }
            }
            let ghost q3 = self.lex.offset();
            proof {
                lemma_scan_progress(d, q3);
            }
            match self.read_sep(&Token::ObjectEnd, "',' or '}'") {
                Err(e) => return Err(e),
                Ok(true) => {
                    proof {
                        vq = self.lex.offset() as int;
                        assert(whole == members(d, vq0, a0, read_field(d, nums@, wholes@), lift_lite()));
                    }
                },
                Ok(false) => {
                    return Ok(op);
                },
            }
        }
    }

    /// A read operation (after its key): its fields, then a check that a
    /// path and a subscription id do not come together.
    fn parse_read_op(&mut self, nums: &Vec<(usize, u64)>, wholes: &Vec<(usize, i64)>) -> (r: Result<ReadOp, ParseError>)
        requires
            old(self).lex.wf(),
            old(self).lex.peeked_token() is None,
            old(self).depth == 0,
        ensures
            final(self).lex.wf(),
            final(self).lex.input_bytes() == old(self).lex.input_bytes(),
            match read_at(old(self).lex.input_bytes(), nums@, wholes@, old(self).lex.offset()) {
                Ok((x, q)) => r matches Ok(v) && v@ == x && final(self).lex.offset() == q
                    && final(self).lex.peeked_token() is None && final(self).depth == 0
                    && q > old(self).lex.offset(),
                Err(e) => r matches Err(e2) && e2@ == e,
            },
    {
        let ghost d = self.lex.input_bytes();
        proof {
            lemma_scan_progress(d, self.lex.offset() as int);
        }
        match self.lex.expect_token(&Token::ObjectStart) {
            Err(e) => return Err(lpe(e)),
            Ok(_) => {},
        }
        let op = match self.read_op_fields(nums, wholes) {
            Err(e) => return Err(lpe(e)),
            Ok(op) => op,
        };
        if op.path.is_some() && op.rid.is_some() {
            return Err(ParseError::MutuallyExclusive("path", "rid"));
        }
        Ok(op)
    }
}


/// The model of an optional written value's fields.
pub open spec fn item_fields_view(path: Option<String>, v: Option<OmiValue>, t: Option<u64>) -> (
    Option<Seq<char>>,
    Option<OmiValueView>,
    Option<u64>,
) {
    (opt_text(path), opt_omi(v), t)
}

impl<'a> JsonParser<'a> {
    /// A written item object whose first token is the one scanned at `q`.
    fn parse_write_item(&mut self, nums: &Vec<(usize, u64)>, Ghost(q): Ghost<int>) -> (r: Result<WriteItem, LiteParseError>)
        requires
            old(self).lex.wf(),
            old(self).depth == 0,
            0 <= q <= old(self).lex.offset(),
            next_outcome(old(self).lex.input_bytes(), old(self).lex.offset(), old(self).lex.peeked_token())
                == scan_at(old(self).lex.input_bytes(), q),
        ensures
            final(self).lex.wf(),
            final(self).lex.input_bytes() == old(self).lex.input_bytes(),
            match write_item_at(old(self).lex.input_bytes(), nums@)(q) {
                Ok((x, q3)) => r matches Ok(v) && v@ == x && final(self).lex.offset() == q3
                    && final(self).lex.peeked_token() is None && final(self).depth == 0 && q3 > q,
                Err(e) => r matches Err(e2) && e2 == e,
            },
    {
        let ghost d = self.lex.input_bytes();
        proof {
            lemma_scan_progress(d, q);
        }
        match self.lex.expect_token(&Token::ObjectStart) {
            Err(e) => return Err(e),
            Ok(_) => {},
        }
        let ghost q0 = self.lex.offset();
        let obj_pos = self.pos();
        let mut path: Option<String> = None;
        let mut v: Option<OmiValue> = None;
        let mut t: Option<u64> = None;
        let ghost whole = fields_body(d, q0, (None, None, None), write_item_field(d, nums@), lift_lite());
        proof {
            lemma_scan_progress(d, q0);
        }
        let mut open = true;
        match self.peek_is(&Token::ObjectEnd) {
            Err(e) => return Err(e),
            Ok(true) => {
                let _ = self.lex.next_token();
                open = false;
            },
            Ok(false) => {},
        }
        if open {
            proof {
                if scan_at(d, q0) matches Ok((None, _)) {
                    lemma_scan_at_end(d, q0);
                }
            }
            let ghost mut vq: int = q0;
            loop
                invariant_except_break
                    next_outcome(d, self.lex.offset(), self.lex.peeked_token()) == scan_at(d, vq),
                    whole == members(d, vq, item_fields_view(path, v, t), write_item_field(d, nums@), lift_lite()),
                invariant
                    self.lex.wf(),
                    self.lex.input_bytes() == d,
                    d == old(self).lex.input_bytes(),
                    self.depth == 0,
                    0 <= q0 <= vq <= self.lex.offset() <= d.len(),
                    q < q0,
                    opened(d, q, TokenView::ObjectStart) == Ok::<int, LiteParseError>(q0),
                    whole == fields_body(d, q0, (None, None, None), write_item_field(d, nums@), lift_lite()),
                    obj_pos == at_pos(q0),
                ensures
                    self.lex.peeked_token() is None,
                    whole == Ok::<_, LiteParseError>((item_fields_view(path, v, t), self.lex.offset() as int)),
                decreases d.len() - vq,
            {
                let ghost vq0 = vq;
                let ghost a0 = item_fields_view(path, v, t);
                let key = match self.read_key(Ghost(vq)) {
                    Err(e) => return Err(e),
                    Ok(k) => k,
                };
                let ghost q2 = self.lex.offset();
                proof {
                    lemma_scan_progress(d, q2);
                }
                if crate::text::str_eq(key.as_str(), "path") {
                    match self.expect_string() {
                        Err(e) => return Err(e),
                        Ok(x) => {
                            path = Some(x);
                        },
                    }
                } else if crate::text::str_eq(key.as_str(), "v") {
                    match self.parse_omi_value(nums) {
                        Err(e) => return Err(e),
                        Ok(x) => {
                            v = Some(x);
                        },
                    }
                } else if crate::text::str_eq(key.as_str(), "t") {
                    match self.read_number(nums) {
                        Err(e) => return Err(e),
                        Ok(x) => {
                            t = Some(x);
                        },
                    }
                } else {
                    match self.skip_value() {
                        Err(e) => return Err(e),
                        Ok(()) => {},
                    }
                }
                let ghost q3 = self.lex.offset();
                proof {
                    lemma_scan_progress(d, q3);
                }
                match self.read_sep(&Token::ObjectEnd, "',' or '}'") {
                    Err(e) => return Err(e),
                    Ok(true) => {
                        proof {
                            vq = self.lex.offset() as int;
                            assert(whole == members(d, vq0, a0, write_item_field(d, nums@), lift_lite()));
                        }
                    },
                    Ok(false) => {
                        break;
                    },
                }
            }
        }
        match path {
            None => Err(LiteParseError::MissingField { field: "path", pos: obj_pos }),
            Some(p) => match v {
                None => Err(LiteParseError::MissingField { field: "v", pos: obj_pos }),
                Some(x) => Ok(WriteItem { path: p, v: x, t }),
            },
        }
    }

    /// An array of written items whose `[` is the token scanned at `q`.
    fn parse_write_items(&mut self, nums: &Vec<(usize, u64)>, Ghost(q): Ghost<int>) -> (r: Result<Vec<WriteItem>, LiteParseError>)
        requires
            old(self).lex.wf(),
            old(self).depth == 0,
            0 <= q <= old(self).lex.offset(),
            next_outcome(old(self).lex.input_bytes(), old(self).lex.offset(), old(self).lex.peeked_token())
                == scan_at(old(self).lex.input_bytes(), q),
        ensures
            final(self).lex.wf(),
            final(self).lex.input_bytes() == old(self).lex.input_bytes(),
            match array_at(old(self).lex.input_bytes(), q, write_item_at(old(self).lex.input_bytes(), nums@)) {
                Ok((x, q3)) => r matches Ok(v) && write_item_views(v@) == x && final(self).lex.offset() == q3
                    && final(self).lex.peeked_token() is None && final(self).depth == 0 && q3 > q,
                Err(e) => r matches Err(e2) && e2 == e,
            },
    {
        let ghost d = self.lex.input_bytes();
        let ghost elem = write_item_at(d, nums@);
        proof {
            lemma_scan_progress(d, q);
        }
        match self.lex.expect_token(&Token::ArrayStart) {
            Err(e) => return Err(e),
            Ok(_) => {},
        }
        let ghost q0 = self.lex.offset();
        let mut items: Vec<WriteItem> = Vec::new();
        proof {
            lemma_scan_progress(d, q0);
            assert(write_item_views(items@) =~= Seq::<WriteItemView>::empty());
        }
        match self.peek_is(&Token::ArrayEnd) {
            Err(e) => return Err(e),
            Ok(true) => {
                let _ = self.lex.next_token();
                return Ok(items);
            },
            Ok(false) => {},
        }
        proof {
            if scan_at(d, q0) matches Ok((None, _)) {
                lemma_scan_at_end(d, q0);
            }
        }
        let ghost mut vq: int = q0;
        loop
            invariant
                self.lex.wf(),
                self.lex.input_bytes() == d,
                self.depth == 0,
                d == old(self).lex.input_bytes(),
                elem == write_item_at(d, nums@),
                array_at(d, q, elem) == array_elems(d, vq, write_item_views(items@), elem),
                next_outcome(d, self.lex.offset(), self.lex.peeked_token()) == scan_at(d, vq),
                0 <= q < q0 <= vq <= self.lex.offset() <= d.len(),
            decreases d.len() - vq,
        {
            let ghost vq0 = vq;
            let ghost acc0 = write_item_views(items@);
            let x = match self.parse_write_item(nums, Ghost(vq)) {
                Err(e) => return Err(e),
                Ok(x) => x,
            };
            let ghost q3 = self.lex.offset();
            proof {
                lemma_scan_progress(d, q3);
            }
            items.push(x);
            proof {
                assert(write_item_views(items@) =~= acc0.push(x@));
            }
            match self.read_sep(&Token::ArrayEnd, "',' or ']'") {
                Err(e) => return Err(e),
                Ok(true) => {
                    proof {
                        vq = self.lex.offset() as int;
                        assert(array_at(d, q, elem) == array_elems(d, vq0, acc0, elem));
                    }
                },
                Ok(false) => {
                    return Ok(items);
                },
            }
        }
    }
}


/// The model of the fields of a write operation read so far.
pub open spec fn write_fields_view(
    path: Option<String>,
    v: Option<OmiValue>,
    t: Option<u64>,
    items: Option<Vec<WriteItem>>,
    objects: Option<Vec<(String, Object)>>,
) -> WriteFields {
    (
        opt_text(path),
        opt_omi(v),
        t,
        match items {
            Some(x) => Some(write_item_views(x@)),
            None => None,
        },
        match objects {
            Some(x) => Some(child_map(x@)),
            None => None,
        },
    )
}

impl<'a> JsonParser<'a> {
    /// A write operation (after its key): its fields, then the check that
    /// exactly one form is given, with what that form needs.
    fn parse_write_op(&mut self, nums: &Vec<(usize, u64)>) -> (r: Result<WriteOp, ParseError>)
        requires
            old(self).lex.wf(),
            old(self).lex.peeked_token() is None,
            old(self).depth == 0,
        ensures
            final(self).lex.wf(),
            final(self).lex.input_bytes() == old(self).lex.input_bytes(),
            match write_at(old(self).lex.input_bytes(), nums@, old(self).lex.offset()) {
                Ok((x, q)) => r matches Ok(v) && v@ == x && final(self).lex.offset() == q
                    && final(self).lex.peeked_token() is None && final(self).depth == 0
                    && q > old(self).lex.offset(),
                Err(e) => r matches Err(e2) && e2@ == e,
            },
    {
        let ghost d = self.lex.input_bytes();
        let ghost q = self.lex.offset();
        proof {
            lemma_scan_progress(d, q);
        }
        match self.lex.expect_token(&Token::ObjectStart) {
            Err(e) => return Err(lpe(e)),
            Ok(_) => {},
        }
        let ghost q0 = self.lex.offset();
        let mut path: Option<String> = None;
        let mut v: Option<OmiValue> = None;
        let mut t: Option<u64> = None;
        let mut items: Option<Vec<WriteItem>> = None;
        let mut objects: Option<Vec<(String, Object)>> = None;
        let ghost whole = fields_body(d, q0, (None, None, None, None, None), write_field(d, nums@), lift_lite());
        proof {
            lemma_scan_progress(d, q0);
        }
        let mut open = true;
        match self.peek_is(&Token::ObjectEnd) {
            Err(e) => return Err(lpe(e)),
            Ok(true) => {
                let _ = self.lex.next_token();
                open = false;
            },
            Ok(false) => {},
        }
        if open {
            proof {
                if scan_at(d, q0) matches Ok((None, _)) {
                    lemma_scan_at_end(d, q0);
                }
            }
            let ghost mut vq: int = q0;
            loop
                invariant_except_break
                    next_outcome(d, self.lex.offset(), self.lex.peeked_token()) == scan_at(d, vq),
                    whole == members(
                        d,
                        vq,
                        write_fields_view(path, v, t, items, objects),
                        write_field(d, nums@),
                        lift_lite(),
                    ),
                invariant
                    self.lex.wf(),
                    self.lex.input_bytes() == d,
                    d == old(self).lex.input_bytes(),
                    self.depth == 0,
                    0 <= q < q0 <= vq <= self.lex.offset() <= d.len(),
                    q == old(self).lex.offset(),
                    opened(d, q, TokenView::ObjectStart) == Ok::<int, LiteParseError>(q0),
                    whole == fields_body(d, q0, (None, None, None, None, None), write_field(d, nums@), lift_lite()),
                    objects matches Some(o) ==> sorted_keys(entry_keys(o@)) && children_wf(o@),
                ensures
                    self.lex.peeked_token() is None,
                    whole == Ok::<_, LiteParseError>(
                        (write_fields_view(path, v, t, items, objects), self.lex.offset() as int),
                    ),
                decreases d.len() - vq,
            {
                let ghost vq0 = vq;
                let ghost a0 = write_fields_view(path, v, t, items, objects);
                let key = match self.read_key(Ghost(vq)) {
                    Err(e) => return Err(lpe(e)),
                    Ok(k) => k,
                };
                let ghost q2 = self.lex.offset();
                proof {
                    lemma_scan_progress(d, q2);
                }
                if crate::text::str_eq(key.as_str(), "path") {
                    match self.expect_string() {
                        Err(e) => return Err(lpe(e)),
                        Ok(x) => {
                            path = Some(x);
                        },
                    }
                } else if crate::text::str_eq(key.as_str(), "v") {
                    match self.parse_omi_value(nums) {
                        Err(e) => return Err(lpe(e)),
                        Ok(x) => {
                            v = Some(x);
                        },
                    }
                } else if crate::text::str_eq(key.as_str(), "t") {
                    match self.read_number(nums) {
                        Err(e) => return Err(lpe(e)),
                        Ok(x) => {
                            t = Some(x);
                        },
                    }
                } else if crate::text::str_eq(key.as_str(), "items") {
                    match self.parse_write_items(nums, Ghost(q2)) {
                        Err(e) => return Err(lpe(e)),
                        Ok(x) => {
                            items = Some(x);
                        },
                    }
                } else if crate::text::str_eq(key.as_str(), "objects") {
                    match self.parse_objects_map(nums) {
                        Err(e) => return Err(lpe(e)),
                        Ok(x) => {
                            objects = Some(x);
                        },
                    }
                } else {
                    match self.skip_value() {
                        Err(e) => return Err(lpe(e)),
                        Ok(()) => {},
                    }
                }
                let ghost q3 = self.lex.offset();
                proof {
                    lemma_scan_progress(d, q3);
                }
                match self.read_sep(&Token::ObjectEnd, "',' or '}'") {
                    Err(e) => return Err(lpe(e)),
                    Ok(true) => {
                        proof {
                            vq = self.lex.offset() as int;
                            assert(whole == members(d, vq0, a0, write_field(d, nums@), lift_lite()));
                        }
                    },
                    Ok(false) => {
                        break;
                    },
                }
            }
        }
        let has_v = v.is_some();
        let has_items = items.is_some();
        let has_objects = objects.is_some();
        if !has_v && !has_items && !has_objects {
            return Err(ParseError::MissingField("v, items, or objects"));
        }
        if has_v && has_items {
            return Err(ParseError::MutuallyExclusive("v", "items"));
        }
        if has_v && has_objects {
            return Err(ParseError::MutuallyExclusive("v", "objects"));
        }
        if has_items && has_objects {
            return Err(ParseError::MutuallyExclusive("items", "objects"));
        }
        match v {
            Some(x) => match path {
                None => Err(ParseError::MissingField("path")),
                Some(p) => Ok(WriteOp::Single { path: p, v: x, t }),
            },
            None => match items {
                Some(list) => {
                    if list.len() == 0 {
                        let mut reason = String::new();
                        crate::text::push_str(&mut reason, "items array must not be empty");
                        Err(ParseError::InvalidField { field: "items", reason })
                    } else {
                        Ok(WriteOp::Batch { items: list })
                    }
                },
                None => match objects {
                    Some(o) => match path {
                        None => Err(ParseError::MissingField("path")),
                        Some(p) => Ok(WriteOp::Tree { path: p, objects: o }),
                    },
                    None => Err(ParseError::MissingField("v, items, or objects")),
                },
            },
        }
    }
}


/// The model of an optional string.
pub open spec fn opt_texts(v: Option<Vec<String>>) -> Option<Seq<Seq<char>>> {
    match v {
        Some(x) => Some(texts(x@)),
        None => None,
    }
}

impl<'a> JsonParser<'a> {
    /// The fields of a delete operation (after its `{`): its path.
    fn delete_fields(&mut self) -> (r: Result<Option<String>, LiteParseError>)
        requires
            old(self).lex.wf(),
            old(self).lex.peeked_token() is None,
            old(self).depth == 0,
        ensures
            final(self).lex.wf(),
            final(self).lex.input_bytes() == old(self).lex.input_bytes(),
            match fields_body(
                old(self).lex.input_bytes(),
                old(self).lex.offset(),
                None,
                one_field(old(self).lex.input_bytes(), "path"@, string_elem(old(self).lex.input_bytes())),
                lift_lite(),
            ) {
                Ok((x, q)) => r matches Ok(v) && opt_text(v) == x && final(self).lex.offset() == q
                    && final(self).lex.peeked_token() is None && final(self).depth == 0
                    && q > old(self).lex.offset(),
                Err(e) => r matches Err(e2) && e2 == e,
            },
    {
        let ghost d = self.lex.input_bytes();
        let ghost q0 = self.lex.offset();
        let ghost fld = one_field(d, "path"@, string_elem(d));
        let mut path: Option<String> = None;
        let ghost whole = fields_body(d, q0, opt_text(path), fld, lift_lite());
        proof {
            lemma_scan_progress(d, q0);
        }
        match self.peek_is(&Token::ObjectEnd) {
            Err(e) => return Err(e),
            Ok(true) => {
                let _ = self.lex.next_token();
                return Ok(path);
            },
            Ok(false) => {},
        }
        proof {
            if scan_at(d, q0) matches Ok((None, _)) {
                lemma_scan_at_end(d, q0);
            }
        }
        let ghost mut vq: int = q0;
        loop
            invariant
                self.lex.wf(),
                self.lex.input_bytes() == d,
                d == old(self).lex.input_bytes(),
                self.depth == 0,
                fld == one_field(d, "path"@, string_elem(d)),
                whole == fields_body(d, q0, None, fld, lift_lite()),
                q0 == old(self).lex.offset(),
                whole == members(d, vq, opt_text(path), fld, lift_lite()),
                next_outcome(d, self.lex.offset(), self.lex.peeked_token()) == scan_at(d, vq),
                0 <= q0 <= vq <= self.lex.offset() <= d.len(),
            decreases d.len() - vq,
        {
            let ghost vq0 = vq;
            let ghost a0 = opt_text(path);
            let key = match self.read_key(Ghost(vq)) {
                Err(e) => return Err(e),
                Ok(k) => k,
            };
            let ghost q2 = self.lex.offset();
            proof {
                lemma_scan_progress(d, q2);
            }
            if crate::text::str_eq(key.as_str(), "path") {
                match self.expect_string() {
                    Err(e) => return Err(e),
                    Ok(x) => {
                        path = Some(x);
                    },
                }
            } else {
                match self.skip_value() {
                    Err(e) => return Err(e),
                    Ok(()) => {},
                }
            }
            let ghost q3 = self.lex.offset();
            proof {
                lemma_scan_progress(d, q3);
            }
            match self.read_sep(&Token::ObjectEnd, "',' or '}'") {
                Err(e) => return Err(e),
                Ok(true) => {
                    proof {
                        vq = self.lex.offset() as int;
                        assert(whole == members(d, vq0, a0, fld, lift_lite()));
                    }
                },
                Ok(false) => {
                    return Ok(path);
                },
            }
        }
    }

    /// A delete operation (after its key): a path, not the root.
    fn parse_delete_op(&mut self) -> (r: Result<DeleteOp, ParseError>)
        requires
            old(self).lex.wf(),
            old(self).lex.peeked_token() is None,
            old(self).depth == 0,
        ensures
            final(self).lex.wf(),
            final(self).lex.input_bytes() == old(self).lex.input_bytes(),
            match delete_at(old(self).lex.input_bytes(), old(self).lex.offset()) {
                Ok((x, q)) => r matches Ok(v) && v.path@ == x && final(self).lex.offset() == q
                    && final(self).lex.peeked_token() is None && final(self).depth == 0
                    && q > old(self).lex.offset(),
                Err(e) => r matches Err(e2) && e2@ == e,
            },
    {
        let ghost d = self.lex.input_bytes();
        proof {
            lemma_scan_progress(d, self.lex.offset() as int);
        }
        match self.lex.expect_token(&Token::ObjectStart) {
            Err(e) => return Err(lpe(e)),
            Ok(_) => {},
        }
        let ghost q1 = self.lex.offset();
        proof {
            lemma_scan_progress(d, q1);
        }
        let path = match self.delete_fields() {
            Err(e) => return Err(lpe(e)),
            Ok(p) => p,
        };
        match path {
            None => Err(ParseError::MissingField("path")),
            Some(p) => {
                if crate::text::str_eq(p.as_str(), "/") {
                    let mut reason = String::new();
                    crate::text::push_str(&mut reason, "cannot delete the root");
                    Err(ParseError::InvalidField { field: "path", reason })
                } else {
                    Ok(DeleteOp { path: p })
                }
            },
        }
    }

    /// An array of strings whose `[` is the token scanned at `q`.
    fn parse_string_array(&mut self, Ghost(q): Ghost<int>) -> (r: Result<Vec<String>, LiteParseError>)
        requires
            old(self).lex.wf(),
            0 <= q <= old(self).lex.offset(),
            next_outcome(old(self).lex.input_bytes(), old(self).lex.offset(), old(self).lex.peeked_token())
                == scan_at(old(self).lex.input_bytes(), q),
        ensures
            final(self).lex.wf(),
            final(self).lex.input_bytes() == old(self).lex.input_bytes(),
            final(self).depth == old(self).depth,
            match array_at(old(self).lex.input_bytes(), q, string_elem(old(self).lex.input_bytes())) {
                Ok((x, q3)) => r matches Ok(v) && texts(v@) == x && final(self).lex.offset() == q3
                    && final(self).lex.peeked_token() is None && q3 > q,
                Err(e) => r matches Err(e2) && e2 == e,
            },
    {
        let ghost d = self.lex.input_bytes();
        let ghost elem = string_elem(d);
        proof {
            lemma_scan_progress(d, q);
        }
        match self.lex.expect_token(&Token::ArrayStart) {
            Err(e) => return Err(e),
            Ok(_) => {},
        }
        let ghost q0 = self.lex.offset();
        let mut out: Vec<String> = Vec::new();
        proof {
            lemma_scan_progress(d, q0);
            assert(texts(out@) =~= Seq::<Seq<char>>::empty());
        }
        match self.peek_is(&Token::ArrayEnd) {
            Err(e) => return Err(e),
            Ok(true) => {
                let _ = self.lex.next_token();
                return Ok(out);
            },
            Ok(false) => {},
        }
        proof {
            if scan_at(d, q0) matches Ok((None, _)) {
                lemma_scan_at_end(d, q0);
            }
        }
        let ghost mut vq: int = q0;
        loop
            invariant
                self.lex.wf(),
                self.lex.input_bytes() == d,
                self.depth == old(self).depth,
                d == old(self).lex.input_bytes(),
                elem == string_elem(d),
                array_at(d, q, elem) == array_elems(d, vq, texts(out@), elem),
                next_outcome(d, self.lex.offset(), self.lex.peeked_token()) == scan_at(d, vq),
                0 <= q < q0 <= vq <= self.lex.offset() <= d.len(),
            decreases d.len() - vq,
        {
            let ghost vq0 = vq;
            let ghost acc0 = texts(out@);
            proof {
                lemma_scan_progress(d, vq);
            }
            let x = match self.expect_string() {
                Err(e) => return Err(e),
                Ok(x) => x,
            };
            let ghost q3 = self.lex.offset();
            proof {
                lemma_scan_progress(d, q3);
            }
            out.push(x);
            proof {
                assert(texts(out@) =~= acc0.push(x@));
            }
            match self.read_sep(&Token::ArrayEnd, "',' or ']'") {
                Err(e) => return Err(e),
                Ok(true) => {
                    proof {
                        vq = self.lex.offset() as int;
                        assert(array_at(d, q, elem) == array_elems(d, vq0, acc0, elem));
                    }
                },
                Ok(false) => {
                    return Ok(out);
                },
            }
        }
    }

    /// The fields of a cancel operation (after its `{`): its ids.
    fn cancel_fields(&mut self) -> (r: Result<Option<Vec<String>>, LiteParseError>)
        requires
            old(self).lex.wf(),
            old(self).lex.peeked_token() is None,
            old(self).depth == 0,
        ensures
            final(self).lex.wf(),
            final(self).lex.input_bytes() == old(self).lex.input_bytes(),
            match fields_body(
                old(self).lex.input_bytes(),
                old(self).lex.offset(),
                None,
                one_field(old(self).lex.input_bytes(), "rid"@, strings_at(old(self).lex.input_bytes())),
                lift_lite(),
            ) {
                Ok((x, q)) => r matches Ok(v) && opt_texts(v) == x && final(self).lex.offset() == q
                    && final(self).lex.peeked_token() is None && final(self).depth == 0
                    && q > old(self).lex.offset(),
                Err(e) => r matches Err(e2) && e2 == e,
            },
    {
        let ghost d = self.lex.input_bytes();
        let ghost q0 = self.lex.offset();
        let ghost fld = one_field(d, "rid"@, strings_at(d));
        let mut rid: Option<Vec<String>> = None;
        let ghost whole = fields_body(d, q0, opt_texts(rid), fld, lift_lite());
        proof {
            lemma_scan_progress(d, q0);
        }
        match self.peek_is(&Token::ObjectEnd) {
            Err(e) => return Err(e),
            Ok(true) => {
                let _ = self.lex.next_token();
                return Ok(rid);
            },
            Ok(false) => {},
        }
        proof {
            if scan_at(d, q0) matches Ok((None, _)) {
                lemma_scan_at_end(d, q0);
            }
        }
        let ghost mut vq: int = q0;
        loop
            invariant
                self.lex.wf(),
                self.lex.input_bytes() == d,
                d == old(self).lex.input_bytes(),
                self.depth == 0,
                fld == one_field(d, "rid"@, strings_at(d)),
                whole == fields_body(d, q0, None, fld, lift_lite()),
                q0 == old(self).lex.offset(),
                whole == members(d, vq, opt_texts(rid), fld, lift_lite()),
                next_outcome(d, self.lex.offset(), self.lex.peeked_token()) == scan_at(d, vq),
                0 <= q0 <= vq <= self.lex.offset() <= d.len(),
            decreases d.len() - vq,
        {
            let ghost vq0 = vq;
            let ghost a0 = opt_texts(rid);
            let key = match self.read_key(Ghost(vq)) {
                Err(e) => return Err(e),
                Ok(k) => k,
            };
            let ghost q2 = self.lex.offset();
            proof {
                lemma_scan_progress(d, q2);
            }
            if crate::text::str_eq(key.as_str(), "rid") {
                match self.parse_string_array(Ghost(q2)) {
                    Err(e) => return Err(e),
                    Ok(x) => {
                        rid = Some(x);
                    },
                }
            } else {
                match self.skip_value() {
                    Err(e) => return Err(e),
                    Ok(()) => {},
                }
            }
            let ghost q3 = self.lex.offset();
            proof {
                lemma_scan_progress(d, q3);
            }
            match self.read_sep(&Token::ObjectEnd, "',' or '}'") {
                Err(e) => return Err(e),
                Ok(true) => {
                    proof {
                        vq = self.lex.offset() as int;
                        assert(whole == members(d, vq0, a0, fld, lift_lite()));
                    }
                },
                Ok(false) => {
                    return Ok(rid);
                },
            }
        }
    }

    /// A cancel operation (after its key): a non-empty array of ids.
    fn parse_cancel_op(&mut self) -> (r: Result<CancelOp, ParseError>)
        requires
            old(self).lex.wf(),
            old(self).lex.peeked_token() is None,
            old(self).depth == 0,
        ensures
            final(self).lex.wf(),
            final(self).lex.input_bytes() == old(self).lex.input_bytes(),
            match cancel_at(old(self).lex.input_bytes(), old(self).lex.offset()) {
                Ok((x, q)) => r matches Ok(v) && texts(v.rid@) == x && final(self).lex.offset() == q
                    && final(self).lex.peeked_token() is None && final(self).depth == 0
                    && q > old(self).lex.offset(),
                Err(e) => r matches Err(e2) && e2@ == e,
            },
    {
        let ghost d = self.lex.input_bytes();
        proof {
            lemma_scan_progress(d, self.lex.offset() as int);
        }
        match self.lex.expect_token(&Token::ObjectStart) {
            Err(e) => return Err(lpe(e)),
            Ok(_) => {},
        }
        let ghost q1 = self.lex.offset();
        proof {
            lemma_scan_progress(d, q1);
        }
        let rid = match self.cancel_fields() {
            Err(e) => return Err(lpe(e)),
            Ok(r) => r,
        };
        match rid {
            None => Err(ParseError::MissingField("rid")),
            Some(list) => {
                if list.len() == 0 {
                    let mut reason = String::new();
                    crate::text::push_str(&mut reason, "rid array must not be empty");
                    Err(ParseError::InvalidField { field: "rid", reason })
                } else {
                    Ok(CancelOp { rid: list })
                }
            },
        }
    }
}


impl<'a> JsonParser<'a> {
    /// An item status object whose first token is the one scanned at `q`.
    fn parse_item_status(&mut self, wholes: &Vec<(usize, i64)>, Ghost(q): Ghost<int>) -> (r: Result<ItemStatus, LiteParseError>)
        requires
            old(self).lex.wf(),
            old(self).depth == 0,
            0 <= q <= old(self).lex.offset(),
            next_outcome(old(self).lex.input_bytes(), old(self).lex.offset(), old(self).lex.peeked_token())
                == scan_at(old(self).lex.input_bytes(), q),
        ensures
            final(self).lex.wf(),
            final(self).lex.input_bytes() == old(self).lex.input_bytes(),
            match item_status_at(old(self).lex.input_bytes(), wholes@)(q) {
                Ok((x, q3)) => r matches Ok(v) && v@ == x && final(self).lex.offset() == q3
                    && final(self).lex.peeked_token() is None && final(self).depth == 0 && q3 > q,
                Err(e) => r matches Err(e2) && e2 == e,
            },
    {
        let ghost d = self.lex.input_bytes();
        proof {
            lemma_scan_progress(d, q);
        }
        match self.lex.expect_token(&Token::ObjectStart) {
            Err(e) => return Err(e),
            Ok(_) => {},
        }
        let ghost q0 = self.lex.offset();
        let obj_pos = self.pos();
        let mut path: Option<String> = None;
        let mut status: Option<u16> = None;
        let mut desc: Option<String> = None;
        let ghost whole = fields_body(d, q0, (None, None, None), status_field(d, wholes@), lift_lite());
        proof {
            lemma_scan_progress(d, q0);
        }
        let mut open = true;
        match self.peek_is(&Token::ObjectEnd) {
            Err(e) => return Err(e),
            Ok(true) => {
                let _ = self.lex.next_token();
                open = false;
            },
            Ok(false) => {},
        }
        if open {
            proof {
                if scan_at(d, q0) matches Ok((None, _)) {
                    lemma_scan_at_end(d, q0);
                }
            }
            let ghost mut vq: int = q0;
            loop
                invariant_except_break
                    next_outcome(d, self.lex.offset(), self.lex.peeked_token()) == scan_at(d, vq),
                    whole == members(
                        d,
                        vq,
                        (opt_text(path), status, opt_text(desc)),
                        status_field(d, wholes@),
                        lift_lite(),
                    ),
                invariant
                    self.lex.wf(),
                    self.lex.input_bytes() == d,
                    d == old(self).lex.input_bytes(),
                    self.depth == 0,
                    0 <= q0 <= vq <= self.lex.offset() <= d.len(),
                    q < q0,
                    opened(d, q, TokenView::ObjectStart) == Ok::<int, LiteParseError>(q0),
                    whole == fields_body(d, q0, (None, None, None), status_field(d, wholes@), lift_lite()),
                    obj_pos == at_pos(q0),
                ensures
                    self.lex.peeked_token() is None,
                    whole == Ok::<_, LiteParseError>(
                        ((opt_text(path), status, opt_text(desc)), self.lex.offset() as int),
                    ),
                decreases d.len() - vq,
            {
                let ghost vq0 = vq;
                let ghost a0 = (opt_text(path), status, opt_text(desc));
                let key = match self.read_key(Ghost(vq)) {
                    Err(e) => return Err(e),
                    Ok(k) => k,
                };
                let ghost q2 = self.lex.offset();
                proof {
                    lemma_scan_progress(d, q2);
                }
                if crate::text::str_eq(key.as_str(), "path") {
                    match self.expect_string() {
                        Err(e) => return Err(e),
                        Ok(x) => {
                            path = Some(x);
                        },
                    }
                } else if crate::text::str_eq(key.as_str(), "status") {
                    match self.read_status(wholes, "status code") {
                        Err(e) => return Err(e),
                        Ok(x) => {
                            status = Some(x);
                        },
                    }
                } else if crate::text::str_eq(key.as_str(), "desc") {
                    match self.expect_string() {
                        Err(e) => return Err(e),
                        Ok(x) => {
                            desc = Some(x);
                        },
                    }
                } else {
                    match self.skip_value() {
                        Err(e) => return Err(e),
                        Ok(()) => {},
                    }
                }
                let ghost q3 = self.lex.offset();
                proof {
                    lemma_scan_progress(d, q3);
                }
                match self.read_sep(&Token::ObjectEnd, "',' or '}'") {
                    Err(e) => return Err(e),
                    Ok(true) => {
                        proof {
                            vq = self.lex.offset() as int;
                            assert(whole == members(d, vq0, a0, status_field(d, wholes@), lift_lite()));
                        }
                    },
                    Ok(false) => {
                        break;
                    },
                }
            }
        }
        match path {
            None => Err(LiteParseError::MissingField { field: "path", pos: obj_pos }),
            Some(p) => match status {
                None => Err(LiteParseError::MissingField { field: "status", pos: obj_pos }),
                Some(st) => Ok(ItemStatus { path: p, status: st, desc }),
            },
        }
    }

    /// An array of item statuses whose `[` is the token scanned at `q`.
    fn parse_item_statuses(&mut self, wholes: &Vec<(usize, i64)>, Ghost(q): Ghost<int>) -> (r: Result<Vec<ItemStatus>, LiteParseError>)
        requires
            old(self).lex.wf(),
            old(self).depth == 0,
            0 <= q <= old(self).lex.offset(),
            next_outcome(old(self).lex.input_bytes(), old(self).lex.offset(), old(self).lex.peeked_token())
                == scan_at(old(self).lex.input_bytes(), q),
        ensures
            final(self).lex.wf(),
            final(self).lex.input_bytes() == old(self).lex.input_bytes(),
            match array_at(old(self).lex.input_bytes(), q, item_status_at(old(self).lex.input_bytes(), wholes@)) {
                Ok((x, q3)) => r matches Ok(v) && item_status_views(v@) == x && final(self).lex.offset() == q3
                    && final(self).lex.peeked_token() is None && final(self).depth == 0 && q3 > q,
                Err(e) => r matches Err(e2) && e2 == e,
            },
    {
        let ghost d = self.lex.input_bytes();
        let ghost elem = item_status_at(d, wholes@);
        proof {
            lemma_scan_progress(d, q);
        }
        match self.lex.expect_token(&Token::ArrayStart) {
            Err(e) => return Err(e),
            Ok(_) => {},
        }
        let ghost q0 = self.lex.offset();
        let mut out: Vec<ItemStatus> = Vec::new();
        proof {
            lemma_scan_progress(d, q0);
            assert(item_status_views(out@) =~= Seq::<ItemStatusView>::empty());
        }
        match self.peek_is(&Token::ArrayEnd) {
            Err(e) => return Err(e),
            Ok(true) => {
                let _ = self.lex.next_token();
                return Ok(out);
            },
            Ok(false) => {},
        }
        proof {
            if scan_at(d, q0) matches Ok((None, _)) {
                lemma_scan_at_end(d, q0);
            }
        }
        let ghost mut vq: int = q0;
        loop
            invariant
                self.lex.wf(),
                self.lex.input_bytes() == d,
                self.depth == 0,
                d == old(self).lex.input_bytes(),
                elem == item_status_at(d, wholes@),
                array_at(d, q, elem) == array_elems(d, vq, item_status_views(out@), elem),
                next_outcome(d, self.lex.offset(), self.lex.peeked_token()) == scan_at(d, vq),
                0 <= q < q0 <= vq <= self.lex.offset() <= d.len(),
            decreases d.len() - vq,
        {
            let ghost vq0 = vq;
            let ghost acc0 = item_status_views(out@);
            let x = match self.parse_item_status(wholes, Ghost(vq)) {
                Err(e) => return Err(e),
                Ok(x) => x,
            };
            let ghost q3 = self.lex.offset();
            proof {
                lemma_scan_progress(d, q3);
            }
            out.push(x);
            proof {
                assert(item_status_views(out@) =~= acc0.push(x@));
            }
            match self.read_sep(&Token::ArrayEnd, "',' or ']'") {
                Err(e) => return Err(e),
                Ok(true) => {
                    proof {
                        vq = self.lex.offset() as int;
                        assert(array_at(d, q, elem) == array_elems(d, vq0, acc0, elem));
                    }
                },
                Ok(false) => {
                    return Ok(out);
                },
            }
        }
    }

    /// A response result (after its key): an array of item statuses, or any
    /// other value, skipped.
    fn parse_response_result(&mut self, wholes: &Vec<(usize, i64)>) -> (r: Result<ResponseResult, LiteParseError>)
        requires
            old(self).lex.wf(),
            old(self).lex.peeked_token() is None,
            old(self).depth == 0,
        ensures
            final(self).lex.wf(),
            final(self).lex.input_bytes() == old(self).lex.input_bytes(),
            match result_at(old(self).lex.input_bytes(), wholes@, old(self).lex.offset()) {
                Ok((x, q3)) => r matches Ok(v) && v@ == x && final(self).lex.offset() == q3
                    && final(self).lex.peeked_token() is None && final(self).depth == 0
                    && q3 >= old(self).lex.offset(),
                Err(e) => r matches Err(e2) && e2 == e,
            },
    {
        let ghost d = self.lex.input_bytes();
        let ghost q2 = self.lex.offset();
        proof {
            lemma_scan_progress(d, q2);
        }
        let arr = self.peek_is(&Token::ArrayStart);
        proof {
            if scan_at(d, q2) matches Ok((None, _)) {
                lemma_scan_at_end(d, q2);
            }
        }
        match arr {
            Err(e) => Err(e),
            Ok(true) => match self.parse_item_statuses(wholes, Ghost(q2)) {
                Err(e) => Err(e),
                Ok(v) => Ok(ResponseResult::Batch(v)),
            },
            Ok(false) => match self.skip_value() {
                Err(e) => Err(e),
                Ok(()) => Ok(ResponseResult::Single(ResultPayload::Null)),
            },
        }
    }
}


/// The model of an optional operation.
pub open spec fn opt_op(o: Option<Operation>) -> Option<OperationView> {
    match o {
        Some(x) => Some(x@),
        None => None,
    }
}

impl<'a> JsonParser<'a> {
    /// A response body (after its key): a status is required.
    fn parse_response_body(&mut self, wholes: &Vec<(usize, i64)>) -> (r: Result<ResponseBody, ParseError>)
        requires
            old(self).lex.wf(),
            old(self).lex.peeked_token() is None,
            old(self).depth == 0,
        ensures
            final(self).lex.wf(),
            final(self).lex.input_bytes() == old(self).lex.input_bytes(),
            match response_at(old(self).lex.input_bytes(), wholes@, old(self).lex.offset()) {
                Ok((x, q)) => r matches Ok(v) && v@ == x && final(self).lex.offset() == q
                    && final(self).lex.peeked_token() is None && final(self).depth == 0
                    && q > old(self).lex.offset(),
                Err(e) => r matches Err(e2) && e2@ == e,
            },
    {
        let ghost d = self.lex.input_bytes();
        let ghost q = self.lex.offset();
        proof {
            lemma_scan_progress(d, q);
        }
        match self.lex.expect_token(&Token::ObjectStart) {
            Err(e) => return Err(lpe(e)),
            Ok(_) => {},
        }
        let ghost q0 = self.lex.offset();
        let mut status: Option<u16> = None;
        let mut rid: Option<String> = None;
        let mut desc: Option<String> = None;
        let mut result: Option<ResponseResult> = None;
        let ghost whole = fields_body(d, q0, (None, None, None, None), response_field(d, wholes@), lift_lite());
        proof {
            lemma_scan_progress(d, q0);
        }
        let mut open = true;
        match self.peek_is(&Token::ObjectEnd) {
            Err(e) => return Err(lpe(e)),
            Ok(true) => {
                let _ = self.lex.next_token();
                open = false;
            },
            Ok(false) => {},
        }
        if open {
            proof {
                if scan_at(d, q0) matches Ok((None, _)) {
                    lemma_scan_at_end(d, q0);
                }
            }
            let ghost mut vq: int = q0;
            loop
                invariant_except_break
                    next_outcome(d, self.lex.offset(), self.lex.peeked_token()) == scan_at(d, vq),
                    whole == members(
                        d,
                        vq,
                        (status, opt_text(rid), opt_text(desc), opt_result(result)),
                        response_field(d, wholes@),
                        lift_lite(),
                    ),
                invariant
                    self.lex.wf(),
                    self.lex.input_bytes() == d,
                    d == old(self).lex.input_bytes(),
                    self.depth == 0,
                    0 <= q < q0 <= vq <= self.lex.offset() <= d.len(),
                    q == old(self).lex.offset(),
                    opened(d, q, TokenView::ObjectStart) == Ok::<int, LiteParseError>(q0),
                    whole == fields_body(d, q0, (None, None, None, None), response_field(d, wholes@), lift_lite()),
                ensures
                    self.lex.peeked_token() is None,
                    whole == Ok::<_, LiteParseError>(
                        ((status, opt_text(rid), opt_text(desc), opt_result(result)), self.lex.offset() as int),
                    ),
                decreases d.len() - vq,
            {
                let ghost vq0 = vq;
                let ghost a0 = (status, opt_text(rid), opt_text(desc), opt_result(result));
                let key = match self.read_key(Ghost(vq)) {
                    Err(e) => return Err(lpe(e)),
                    Ok(k) => k,
                };
                let ghost q2 = self.lex.offset();
                proof {
                    lemma_scan_progress(d, q2);
                }
                if crate::text::str_eq(key.as_str(), "status") {
                    match self.read_status(wholes, "status code (0..65535)") {
                        Err(e) => return Err(lpe(e)),
                        Ok(x) => {
                            status = Some(x);
                        },
                    }
                } else if crate::text::str_eq(key.as_str(), "rid") {
                    match self.expect_string() {
                        Err(e) => return Err(lpe(e)),
                        Ok(x) => {
                            rid = Some(x);
                        },
                    }
                } else if crate::text::str_eq(key.as_str(), "desc") {
                    match self.expect_string() {
                        Err(e) => return Err(lpe(e)),
                        Ok(x) => {
                            desc = Some(x);
                        },
                    }
                } else if crate::text::str_eq(key.as_str(), "result") {
                    match self.parse_response_result(wholes) {
                        Err(e) => return Err(lpe(e)),
                        Ok(x) => {
                            result = Some(x);
                        },
                    }
                } else {
                    match self.skip_value() {
                        Err(e) => return Err(lpe(e)),
                        Ok(()) => {},
                    }
                }
                let ghost q3 = self.lex.offset();
                proof {
                    lemma_scan_progress(d, q3);
                }
                match self.read_sep(&Token::ObjectEnd, "',' or '}'") {
                    Err(e) => return Err(lpe(e)),
                    Ok(true) => {
                        proof {
                            vq = self.lex.offset() as int;
                            assert(whole == members(d, vq0, a0, response_field(d, wholes@), lift_lite()));
                        }
                    },
                    Ok(false) => {
                        break;
                    },
                }
            }
        }
        match status {
            None => Err(ParseError::MissingField("status")),
            Some(st) => Ok(ResponseBody { status: st, rid, desc, result }),
        }
    }
}

/// The envelope of a message read so far.
struct Envelope {
    version: Option<String>,
    ttl: Option<i64>,
    operation: Option<Operation>,
    seen_read: bool,
    seen_write: bool,
    seen_delete: bool,
    seen_cancel: bool,
    seen_response: bool,
}

/// The model of an envelope read so far.
spec fn env_view(e: Envelope) -> EnvFields {
    (
        opt_text(e.version),
        e.ttl,
        opt_op(e.operation),
        (e.seen_read, e.seen_write, e.seen_delete, e.seen_cancel, e.seen_response),
    )
}

/// An operation was kept once one was seen.
spec fn env_ok(e: Envelope) -> bool {
    e.seen_read || e.seen_write || e.seen_delete || e.seen_cancel || e.seen_response ==> e.operation is Some
}

impl<'a> JsonParser<'a> {
    /// Read the value of the envelope member `key` into `env`.
    fn envelope_member(
        &mut self,
        key: &str,
        nums: &Vec<(usize, u64)>,
        wholes: &Vec<(usize, i64)>,
        env: &mut Envelope,
    ) -> (r: Result<(), ParseError>)
        requires
            old(self).lex.wf(),
            old(self).lex.peeked_token() is None,
            old(self).depth == 0,
            env_ok(*old(env)),
        ensures
            final(self).lex.wf(),
            final(self).lex.input_bytes() == old(self).lex.input_bytes(),
            match envelope_field(old(self).lex.input_bytes(), nums@, wholes@)(
                key@,
                old(self).lex.offset(),
                env_view(*old(env)),
            ) {
                Ok((a, q3)) => r is Ok && env_view(*final(env)) == a && env_ok(*final(env))
                    && final(self).lex.offset() == q3 && final(self).lex.peeked_token() is None
                    && final(self).depth == 0 && q3 >= old(self).lex.offset(),
                Err(e) => r matches Err(x) && x@ == e,
            },
    {
        let ghost d = self.lex.input_bytes();
        proof {
            lemma_scan_progress(d, self.lex.offset() as int);
            reveal(envelope_field);
        }
        if crate::text::str_eq(key, "omi") {
            match self.expect_string() {
                Err(e) => return Err(lpe(e)),
                Ok(x) => {
                    env.version = Some(x);
                },
            }
        } else if crate::text::str_eq(key, "ttl") {
            match self.read_int(wholes) {
                Err(e) => return Err(lpe(e)),
                Ok(x) => {
                    env.ttl = Some(x);
                },
            }
        } else if crate::text::str_eq(key, "read") {
            env.seen_read = true;
            match self.parse_read_op(nums, wholes) {
                Err(e) => return Err(e),
                Ok(x) => {
                    env.operation = Some(Operation::Read(x));
                },
            }
        } else if crate::text::str_eq(key, "write") {
            env.seen_write = true;
            match self.parse_write_op(nums) {
                Err(e) => return Err(e),
                Ok(x) => {
                    env.operation = Some(Operation::Write(x));
                },
            }
        } else if crate::text::str_eq(key, "delete") {
            env.seen_delete = true;
            match self.parse_delete_op() {
                Err(e) => return Err(e),
                Ok(x) => {
                    env.operation = Some(Operation::Delete(x));
                },
            }
        } else if crate::text::str_eq(key, "cancel") {
            env.seen_cancel = true;
            match self.parse_cancel_op() {
                Err(e) => return Err(e),
                Ok(x) => {
                    env.operation = Some(Operation::Cancel(x));
                },
            }
        } else if crate::text::str_eq(key, "response") {
            env.seen_response = true;
            match self.parse_response_body(wholes) {
                Err(e) => return Err(e),
                Ok(x) => {
                    env.operation = Some(Operation::Response(x));
                },
            }
        } else {
            match self.skip_value() {
                Err(e) => return Err(lpe(e)),
                Ok(()) => {},
            }
        }
        Ok(())
    }
}

/// Parse an O-MI message: one JSON object with only whitespace after it.
/// Numbers come through two tables: `nums` gives the bits of each number
/// token's double by the offset at which it ends, and `wholes` the whole
/// number that a number token (not an integer token) denotes, where it
/// denotes one.
pub fn parse_omi_message(input: &[u8], nums: &Vec<(usize, u64)>, wholes: &Vec<(usize, i64)>) -> (r: Result<
    OmiMessage,
    ParseError,
>)
    ensures
        match omi_message_at(input@, nums@, wholes@) {
            Ok(m) => r matches Ok(x) && x@ == m,
            Err(e) => r matches Err(x) && x@ == e,
        },
{
    let ghost d = input@;
    let mut p = JsonParser::new(input);
    proof {
        lemma_scan_progress(d, 0);
    }
    match p.lex.expect_token(&Token::ObjectStart) {
        Err(e) => return Err(lpe(e)),
        Ok(_) => {},
    }
    let ghost q0 = p.lex.offset();
    let mut env = Envelope {
        version: None,
        ttl: None,
        operation: None,
        seen_read: false,
        seen_write: false,
        seen_delete: false,
        seen_cancel: false,
        seen_response: false,
    };
    let ghost fld = envelope_field(d, nums@, wholes@);
    let ghost whole = fields_body(d, q0, no_env_fields(), fld, lift_omi());
    proof {
        lemma_scan_progress(d, q0);
    }
    let mut open = true;
    match p.peek_is(&Token::ObjectEnd) {
        Err(e) => return Err(lpe(e)),
        Ok(true) => {
            let _ = p.lex.next_token();
            open = false;
        },
        Ok(false) => {},
    }
    if open {
        proof {
            if scan_at(d, q0) matches Ok((None, _)) {
                lemma_scan_at_end(d, q0);
            }
        }
        let ghost mut vq: int = q0;
        loop
            invariant_except_break
                next_outcome(d, p.lex.offset(), p.lex.peeked_token()) == scan_at(d, vq),
                whole == members(d, vq, env_view(env), fld, lift_omi()),
            invariant
                p.lex.wf(),
                p.lex.input_bytes() == d,
                d == input@,
                p.depth == 0,
                0 <= q0 <= vq <= p.lex.offset() <= d.len(),
                fld == envelope_field(d, nums@, wholes@),
                whole == fields_body(d, q0, no_env_fields(), fld, lift_omi()),
                opened(d, 0, TokenView::ObjectStart) == Ok::<int, LiteParseError>(q0),
                env_ok(env),
            ensures
                p.lex.peeked_token() is None,
                whole == Ok::<_, ParseErrorView>((env_view(env), p.lex.offset() as int)),
            decreases d.len() - vq,
        {
            let ghost vq0 = vq;
            let ghost a0 = env_view(env);
            let key = match p.read_key(Ghost(vq)) {
                Err(e) => return Err(lpe(e)),
                Ok(k) => k,
            };
            match p.envelope_member(key.as_str(), nums, wholes, &mut env) {
                Err(e) => return Err(e),
                Ok(()) => {},
            }
            let ghost q3 = p.lex.offset();
            proof {
                lemma_scan_progress(d, q3);
            }
            match p.read_sep(&Token::ObjectEnd, "',' or '}'") {
                Err(e) => return Err(lpe(e)),
                Ok(true) => {
                    proof {
                        vq = p.lex.offset() as int;
                        assert(whole == members(d, vq0, a0, fld, lift_omi()));
                    }
                },
                Ok(false) => {
                    break;
                },
            }
        }
    }
    let v = match env.version {
        None => return Err(ParseError::MissingField("omi")),
        Some(v) => v,
    };
    if !crate::text::str_eq(v.as_str(), "1.0") {
        return Err(ParseError::UnsupportedVersion(v));
    }
    let t = match env.ttl {
        None => return Err(ParseError::MissingField("ttl")),
        Some(t) => t,
    };
    let count: usize = (if env.seen_read { 1usize } else { 0usize }) + (if env.seen_write { 1usize } else { 0usize }) + (
    if env.seen_delete { 1usize } else { 0usize }) + (if env.seen_cancel { 1usize } else { 0usize }) + (
    if env.seen_response { 1usize } else { 0usize });
    if count != 1 {
        return Err(ParseError::InvalidOperationCount(count));
    }
    let op = match env.operation {
        Some(o) => o,
        None => return Err(ParseError::InvalidOperationCount(0)),
    };
    if !p.is_eof() {
        let mut msg = String::new();
        crate::text::push_str(&mut msg, "trailing content at byte ");
        let n = crate::text::decimal_string(p.position() as u64);
        crate::text::push_str(&mut msg, n.as_str());
        return Err(ParseError::InvalidJson(msg));
    }
    Ok(OmiMessage { version: v, ttl: t, operation: op })
}

} // verus!
