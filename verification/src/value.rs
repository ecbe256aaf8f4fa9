//! The value model: a tagged union of symbols, strings, numbers,
//! cons-cell lists and pairs, the empty-list terminator `Nil`, and a
//! `Function` variant reserved for a later callable representation.
//!
//! A `Cons` value is a proper-list node iff its cdr is `Nil` or itself a
//! proper-list node; otherwise it is a dotted pair. The classification is
//! structural and recomputed on demand, never cached. Each side of a cons
//! cell is owned exclusively by the cell, so the tree has no sharing and
//! no cycles.
//!
//! Numbers carry their literal text, which is exact; reading it as a
//! machine number is the consumer's concern.

use vstd::prelude::*;

use crate::scanner::{chars_to_string, str_chars};

verus! {

/// A two-slot node used to build lists and pairs.
#[derive(Debug, PartialEq)]
pub struct Cons {
    pub car: Box<Value>,
    pub cdr: Box<Value>,
}

/// A symbolic value.
#[derive(Debug, PartialEq)]
pub enum Value {
    Cons(Cons),
    Symbol(String),
    String(String),
    Number(String),
    Nil,
    /// Reserved: a tag carried on a cons-shaped payload for a later
    /// callable representation.
    Function(Cons),
}

impl Clone for Value {
    /// A structural copy: the clone equals the original.
    fn clone(&self) -> (r: Value)
        ensures
            r == *self,
        decreases *self,
    {
        match self {
            Value::Cons(c) => Value::Cons(
                Cons { car: Box::new((*c.car).clone()), cdr: Box::new((*c.cdr).clone()) },
            ),
            Value::Symbol(s) => Value::Symbol(s.clone()),
            Value::String(s) => Value::String(s.clone()),
            Value::Number(s) => Value::Number(s.clone()),
            Value::Nil => Value::Nil,
            Value::Function(c) => Value::Function(
                Cons { car: Box::new((*c.car).clone()), cdr: Box::new((*c.cdr).clone()) },
            ),
        }
    }
}

impl Clone for Cons {
    /// A structural copy: the clone equals the original.
    fn clone(&self) -> (r: Cons)
        ensures
            r == *self,
    {
        Cons { car: Box::new((*self.car).clone()), cdr: Box::new((*self.cdr).clone()) }
    }
}

impl Cons {
    /// The first slot, by structural copy.
    pub fn car(&self) -> (r: Value)
        ensures
            r == *self.car,
    {
        (*self.car).clone()
    }

    /// The second slot, by structural copy.
    pub fn cdr(&self) -> (r: Value)
        ensures
            r == *self.cdr,
    {
        (*self.cdr).clone()
    }

    pub fn set_car(&mut self, v: Value)
        ensures
            final(self).car == v,
            final(self).cdr == old(self).cdr,
    {
        self.car = Box::new(v);
    }

    pub fn set_cdr(&mut self, v: Value)
        ensures
            final(self).cdr == v,
            final(self).car == old(self).car,
    {
        self.cdr = Box::new(v);
    }
}

/// The cons cell of `car` and `cdr`, as a value.
pub open spec fn spec_cons(car: Value, cdr: Value) -> Value {
    Value::Cons(Cons { car: Box::new(car), cdr: Box::new(cdr) })
}

/// Builds the cons cell of `car` and `cdr`. Always produces a `Cons`;
/// `Nil` is never special-cased at construction time.
pub fn cons(car: Value, cdr: Value) -> (r: Value)
    ensures
        r == spec_cons(car, cdr),
{
    Value::Cons(Cons { car: Box::new(car), cdr: Box::new(cdr) })
}

/// The length of the cdr chain below `v`: 0 for anything but a `Cons`.
pub open spec fn cdr_chain_len(v: Value) -> nat
    decreases v,
{
    match v {
        Value::Cons(c) => 1 + cdr_chain_len(*c.cdr),
        _ => 0,
    }
}

/// Whether `v` is a proper list: `Nil`, or a `Cons` whose cdr is a
/// proper list.
pub open spec fn spec_is_list(v: Value) -> bool
    decreases v,
{
    match v {
        Value::Nil => true,
        Value::Cons(c) => spec_is_list(*c.cdr),
        _ => false,
    }
}

/// Whether `v` is a dotted pair: a `Cons` whose cdr is neither `Nil` nor
/// another `Cons`.
pub open spec fn spec_is_pair(v: Value) -> bool {
    match v {
        Value::Cons(c) => !(*c.cdr is Nil) && !(*c.cdr is Cons),
        _ => false,
    }
}

/// Whether `value` is a proper list. Walks the cdr chain iteratively, so
/// long lists cannot overflow the stack.
pub fn is_list(value: &Value) -> (r: bool)
    ensures
        r == spec_is_list(*value),
{
    let mut cur: &Value = value;
    loop
        invariant
            spec_is_list(*value) == spec_is_list(*cur),
        decreases cdr_chain_len(*cur),
    {
        match cur {
            Value::Nil => {
                return true;
            },
            Value::Cons(c) => {
                cur = &*c.cdr;
            },
            _ => {
                return false;
            },
        }
    }
}

/// Whether `value` is a dotted pair.
pub fn is_pair(value: &Value) -> (r: bool)
    ensures
        r == spec_is_pair(*value),
{
    match value {
        Value::Cons(c) => match &*c.cdr {
            Value::Nil => false,
            Value::Cons(_) => false,
            _ => true,
        },
        _ => false,
    }
}

/// The elements along the cdr chain of `v`: the cars of its cons cells,
/// in order. For a proper list these are exactly the list's elements.
pub open spec fn spec_list_elems(v: Value) -> Seq<Value>
    decreases v,
{
    match v {
        Value::Cons(c) => seq![*c.car] + spec_list_elems(*c.cdr),
        _ => Seq::empty(),
    }
}

/// The proper list holding the elements of `s`, in order.
pub open spec fn spec_from_seq(s: Seq<Value>) -> Value
    decreases s.len(),
{
    if s.len() == 0 {
        Value::Nil
    } else {
        Value::Cons(Cons { car: Box::new(s[0]), cdr: Box::new(spec_from_seq(s.drop_first())) })
    }
}

/// Building a proper list from a sequence and reading its elements back
/// yields the same sequence: the round trip through `slice_to_list` and
/// `list_to_vec` is the identity on element sequences.
pub proof fn lemma_from_seq_round_trip(s: Seq<Value>)
    ensures
        spec_is_list(spec_from_seq(s)),
        spec_list_elems(spec_from_seq(s)) == s,
    decreases s.len(),
{
    if s.len() == 0 {
        assert(spec_list_elems(spec_from_seq(s)) =~= s);
    } else {
        lemma_from_seq_round_trip(s.drop_first());
        assert(spec_list_elems(spec_from_seq(s)) =~= s);
    }
}

/// A cons cell on top of a proper list is a proper list.
pub proof fn lemma_cons_onto_list_is_list(car: Value, cdr: Value)
    requires
        spec_is_list(cdr),
    ensures
        spec_is_list(spec_cons(car, cdr)),
{
}

/// A cons cell whose cdr is neither `Nil` nor a `Cons` is a dotted pair,
/// whatever its car.
pub proof fn lemma_cons_onto_atom_is_pair(car: Value, cdr: Value)
    requires
        !(cdr is Nil),
        !(cdr is Cons),
    ensures
        spec_is_pair(spec_cons(car, cdr)),
{
}

/// The proper list holding the elements of `items`, in order.
pub fn slice_to_list(items: &[Value]) -> (r: Value)
    ensures
        r == spec_from_seq(items@),
{
    let mut acc = Value::Nil;
    let mut i: usize = items.len();
    while i > 0
        invariant
            i <= items@.len(),
            acc == spec_from_seq(items@.subrange(i as int, items@.len() as int)),
        decreases i,
    {
        i = i - 1;
        acc = cons(items[i].clone(), acc);
        proof {
            let tail = items@.subrange(i + 1, items@.len() as int);
            let whole = items@.subrange(i as int, items@.len() as int);
            assert(whole[0] == items@[i as int]);
            assert(whole.drop_first() =~= tail);
        }
    }
    proof {
        assert(items@.subrange(0, items@.len() as int) =~= items@);
    }
    acc
}

/// The proper list holding the elements of `items`, in order.
pub fn vec_to_list(items: &Vec<Value>) -> (r: Value)
    ensures
        r == spec_from_seq(items@),
{
    slice_to_list(items.as_slice())
}

/// The kinds of failure of an operation on values.
#[derive(Debug, Clone, Copy, PartialEq, Eq)]
pub enum ValueError {
    /// The value handed in was not a proper list.
    NotAProperList,
}

/// The elements of the proper list `value`, in order; the inverse of
/// `slice_to_list`. A value that is not a proper list — a dotted chain or
/// a bare atom — is rejected, if and only if it is not one.
pub fn list_to_vec(value: &Value) -> (r: Result<Vec<Value>, ValueError>)
    ensures
        match r {
            Ok(items) => spec_is_list(*value) && items@ == spec_list_elems(*value),
            Err(e) => !spec_is_list(*value) && e == ValueError::NotAProperList,
        },
{
    let mut out: Vec<Value> = Vec::new();
    let mut cur: &Value = value;
    loop
        invariant
            spec_is_list(*value) == spec_is_list(*cur),
            spec_list_elems(*value) == out@ + spec_list_elems(*cur),
        decreases cdr_chain_len(*cur),
    {
        match cur {
            Value::Nil => {
                proof {
                    assert(out@ + spec_list_elems(Value::Nil) =~= out@);
                }
                return Ok(out);
            },
            Value::Cons(c) => {
                out.push(c.car());
                cur = &*c.cdr;
                proof {
                    assert(spec_list_elems(*value) =~= out@ + spec_list_elems(*cur));
                }
            },
            _ => {
                return Err(ValueError::NotAProperList);
            },
        }
    }
}

/// A Unicode control character: the C0 range, delete, or the C1 range.
pub open spec fn spec_is_control(c: char) -> bool {
    (c as u32) < 0x20 || (0x7F <= c as u32 <= 0x9F)
}

/// The lower-case hexadecimal digit for `d` (0 to 15).
pub open spec fn hex_digit(d: u32) -> char {
    if d == 0 {
        '0'
    } else if d == 1 {
        '1'
    } else if d == 2 {
        '2'
    } else if d == 3 {
        '3'
    } else if d == 4 {
        '4'
    } else if d == 5 {
        '5'
    } else if d == 6 {
        '6'
    } else if d == 7 {
        '7'
    } else if d == 8 {
        '8'
    } else if d == 9 {
        '9'
    } else if d == 10 {
        'a'
    } else if d == 11 {
        'b'
    } else if d == 12 {
        'c'
    } else if d == 13 {
        'd'
    } else if d == 14 {
        'e'
    } else {
        'f'
    }
}

/// How one character of a string literal is rendered: `"` and `\` are
/// escaped with a backslash; newline, tab and carriage return as `\n`,
/// `\t`, `\r`; any other control character as `\x` and two hexadecimal
/// digits of its codepoint (all control codepoints fit in two); every
/// other character stands for itself.
pub open spec fn escape_char(c: char) -> Seq<char> {
    if c == '"' {
        seq!['\\', '"']
    } else if c == '\\' {
        seq!['\\', '\\']
    } else if c == '\n' {
        seq!['\\', 'n']
    } else if c == '\t' {
        seq!['\\', 't']
    } else if c == '\r' {
        seq!['\\', 'r']
    } else if spec_is_control(c) {
        seq!['\\', 'x', hex_digit((c as u32) / 16), hex_digit((c as u32) % 16)]
    } else {
        seq![c]
    }
}

fn hex_digit_char(d: u32) -> (r: char)
    requires
        d < 16,
    ensures
        r == hex_digit(d),
{
    if d == 0 {
        '0'
    } else if d == 1 {
        '1'
    } else if d == 2 {
        '2'
    } else if d == 3 {
        '3'
    } else if d == 4 {
        '4'
    } else if d == 5 {
        '5'
    } else if d == 6 {
        '6'
    } else if d == 7 {
        '7'
    } else if d == 8 {
        '8'
    } else if d == 9 {
        '9'
    } else if d == 10 {
        'a'
    } else if d == 11 {
        'b'
    } else if d == 12 {
        'c'
    } else if d == 13 {
        'd'
    } else if d == 14 {
        'e'
    } else {
        'f'
    }
}

/// The rendering of a string literal's text, character by character.
pub open spec fn escape(s: Seq<char>) -> Seq<char>
    decreases s.len(),
{
    if s.len() == 0 {
        Seq::empty()
    } else {
        escape_char(s[0]) + escape(s.drop_first())
    }
}

proof fn lemma_escape_push(s: Seq<char>, c: char)
    ensures
        escape(s.push(c)) == escape(s) + escape_char(c),
    decreases s.len(),
{
    if s.len() == 0 {
        assert(s.push(c)[0] == c);
        assert(s.push(c).drop_first() =~= s);
        assert(escape(s.push(c)) =~= escape(s) + escape_char(c));
    } else {
        assert(s.push(c).drop_first() =~= s.drop_first().push(c));
        lemma_escape_push(s.drop_first(), c);
        assert(escape(s.push(c)) =~= escape(s) + escape_char(c));
    }
}

/// The canonical rendering of a value: a symbol as its bare text, a
/// string quote-delimited and escaped, a number as its literal text,
/// `Nil` as `nil`, the reserved `Function` tag as `function`, and a cons
/// cell as `(` followed by its car's rendering and its cdr chain's.
pub open spec fn render(v: Value) -> Seq<char>
    decreases v, 0int,
{
    match v {
        Value::Nil => seq!['n', 'i', 'l'],
        Value::Symbol(s) => s@,
        Value::String(s) => seq!['"'] + escape(s@) + seq!['"'],
        Value::Number(s) => s@,
        Value::Function(_) => seq!['f', 'u', 'n', 'c', 't', 'i', 'o', 'n'],
        Value::Cons(c) => seq!['('] + render(*c.car) + render_tail(*c.cdr),
    }
}

/// The rendering of the rest of a cdr chain: `)` at `Nil`, a space and
/// the next element at a further cons cell, and ` . ` before a final
/// atom — so a proper list comes out as `(e1 e2 … en)` and a dotted pair
/// as `(car . cdr)`.
pub open spec fn render_tail(v: Value) -> Seq<char>
    decreases v, 1int,
{
    match v {
        Value::Nil => seq![')'],
        Value::Cons(c) => seq![' '] + render(*c.car) + render_tail(*c.cdr),
        _ => seq![' ', '.', ' '] + render(v) + seq![')'],
    }
}

fn push_str_chars(s: &String, out: &mut Vec<char>)
    ensures
        final(out)@ == old(out)@ + s@,
{
    let mut cs = str_chars(s.as_str());
    out.append(&mut cs);
}

fn render_into(v: &Value, out: &mut Vec<char>)
    ensures
        final(out)@ == old(out)@ + render(*v),
    decreases *v, 0int,
{
    match v {
        Value::Nil => {
            out.push('n');
            out.push('i');
            out.push('l');
            proof {
                assert(out@ =~= old(out)@ + render(*v));
            }
        },
        Value::Symbol(s) => {
            push_str_chars(s, out);
        },
        Value::String(s) => {
            out.push('"');
            let cs = str_chars(s.as_str());
            let ghost mid = out@;
            let mut i: usize = 0;
            while i < cs.len()
                invariant
                    i <= cs@.len(),
                    cs@ == s@,
                    out@ == mid + escape(cs@.take(i as int)),
                decreases cs@.len() - i,
            {
                let c = cs[i];
                if c == '"' {
                    out.push('\\');
                    out.push('"');
                } else if c == '\\' {
                    out.push('\\');
                    out.push('\\');
                } else if c == '\n' {
                    out.push('\\');
                    out.push('n');
                } else if c == '\t' {
                    out.push('\\');
                    out.push('t');
                } else if c == '\r' {
                    out.push('\\');
                    out.push('r');
                } else if (c as u32) < 0x20 || (0x7F <= c as u32 && c as u32 <= 0x9F) {
                    let u = c as u32;
                    out.push('\\');
                    out.push('x');
                    out.push(hex_digit_char(u / 16));
                    out.push(hex_digit_char(u % 16));
                } else {
                    out.push(c);
                }
                i = i + 1;
                proof {
                    assert(cs@.take(i as int) =~= cs@.take(i - 1).push(cs@[i - 1]));
                    lemma_escape_push(cs@.take(i - 1), cs@[i - 1]);
                    assert(out@ =~= mid + escape(cs@.take(i as int)));
                }
            }
            out.push('"');
            proof {
                assert(cs@.take(cs@.len() as int) =~= s@);
                assert(out@ =~= old(out)@ + render(*v));
            }
        },
        Value::Number(s) => {
            push_str_chars(s, out);
        },
        Value::Function(_) => {
            out.push('f');
            out.push('u');
            out.push('n');
            out.push('c');
            out.push('t');
            out.push('i');
            out.push('o');
            out.push('n');
            proof {
                assert(out@ =~= old(out)@ + render(*v));
            }
        },
        Value::Cons(c) => {
            out.push('(');
            render_into(&c.car, out);
            render_tail_into(&c.cdr, out);
            proof {
                assert(out@ =~= old(out)@ + render(*v));
            }
        },
    }
}

fn render_tail_into(v: &Value, out: &mut Vec<char>)
    ensures
        final(out)@ == old(out)@ + render_tail(*v),
    decreases *v, 1int,
{
    match v {
        Value::Nil => {
            out.push(')');
            proof {
                assert(out@ =~= old(out)@ + render_tail(*v));
            }
        },
        Value::Cons(c) => {
            out.push(' ');
            render_into(&c.car, out);
            render_tail_into(&c.cdr, out);
            proof {
                assert(out@ =~= old(out)@ + render_tail(*v));
            }
        },
        _ => {
            out.push(' ');
            out.push('.');
            out.push(' ');
            render_into(v, out);
            out.push(')');
            proof {
                assert(out@ =~= old(out)@ + render_tail(*v));
            }
        },
    }
}

/// The canonical textual rendering of `value` (see `render`).
pub fn display(value: &Value) -> (r: String)
    ensures
        r@ == render(*value),
{
    let mut out: Vec<char> = Vec::new();
    render_into(value, &mut out);
    chars_to_string(out)
}

} // verus!
