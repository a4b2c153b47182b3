//! Typed conversion of tokens: the capability the binder is polymorphic
//! over, realized as a closed set of field types with one exhaustive match.

use vstd::prelude::*;
use vstd::slice::slice_index_get;
use vstd::slice::slice_subrange;
use crate::text::chars_to_string;

verus! {

/// The built-in field types a token can convert into.
#[derive(Debug, Clone, Copy, PartialEq, Eq, Structural)]
pub enum FieldTy {
    /// An unsigned decimal integer (an optional leading `+`, then digits).
    Int,
    /// The token text itself.
    Str,
    /// Exactly `true` or `false`.
    Bool,
}

/// A converted field value, or the presence mark of a trigger flag.
#[derive(Debug, Clone, PartialEq, Eq)]
pub enum Value {
    Int(u64),
    Str(String),
    Bool(bool),
    Trigger,
}

/// The specification-level value of a `Value`.
pub enum ValueModel {
    Int(int),
    Str(Seq<char>),
    Bool(bool),
    Trigger,
}

impl View for Value {
    type V = ValueModel;

    open spec fn view(&self) -> ValueModel {
        match self {
            Value::Int(n) => ValueModel::Int(*n as int),
            Value::Str(s) => ValueModel::Str(s@),
            Value::Bool(b) => ValueModel::Bool(*b),
            Value::Trigger => ValueModel::Trigger,
        }
    }
}

impl Value {
    /// An exact copy; unlike a derived clone, its contract says the copy
    /// has the same model.
    pub fn duplicate(&self) -> (r: Value)
        ensures
            r@ == self@,
    {
        match self {
            Value::Int(n) => Value::Int(*n),
            Value::Str(s) => Value::Str(s.clone()),
            Value::Bool(b) => Value::Bool(*b),
            Value::Trigger => Value::Trigger,
        }
    }
}

/// Whether `c` is a decimal digit.
pub open spec fn is_digit_spec(c: char) -> bool {
    48 <= c as u32 && c as u32 <= 57
}

/// The numeric value of a digit character.
pub open spec fn digit_val(c: char) -> int {
    c as u32 - 48
}

/// Whether every character of `s` is a decimal digit.
pub open spec fn all_digits(s: Seq<char>) -> bool {
    forall|i: int| 0 <= i < s.len() ==> is_digit_spec(s[i])
}

/// The number denoted by a digit string, most significant digit first.
pub open spec fn uint_val(s: Seq<char>) -> int
    decreases s.len(),
{
    if s.len() == 0 {
        0
    } else {
        uint_val(s.take(s.len() - 1)) * 10 + digit_val(s[s.len() - 1])
    }
}

/// The digit part of an integer token: the text behind an optional leading
/// `+`.
pub open spec fn digits_of(text: Seq<char>) -> Seq<char> {
    if text.len() > 0 && text[0] == '+' {
        text.skip(1)
    } else {
        text
    }
}

/// Whether a token is a well-formed unsigned integer literal.
pub open spec fn is_uint_literal(text: Seq<char>) -> bool {
    digits_of(text).len() > 0 && all_digits(digits_of(text))
}

/// The spelling of the boolean constants.
pub open spec fn true_chars() -> Seq<char> {
    seq!['t', 'r', 'u', 'e']
}

/// The spelling of the boolean constants.
pub open spec fn false_chars() -> Seq<char> {
    seq!['f', 'a', 'l', 's', 'e']
}

/// What converting `text` to type `ty` yields: the converted value, or
/// nothing when the text does not denote a value of the type.
pub open spec fn convert_spec(ty: FieldTy, text: Seq<char>) -> Option<ValueModel> {
    match ty {
        FieldTy::Int => if is_uint_literal(text) && uint_val(digits_of(text)) <= u64::MAX {
            Some(ValueModel::Int(uint_val(digits_of(text))))
        } else {
            None
        },
        FieldTy::Str => Some(ValueModel::Str(text)),
        FieldTy::Bool => if text == true_chars() {
            Some(ValueModel::Bool(true))
        } else if text == false_chars() {
            Some(ValueModel::Bool(false))
        } else {
            None
        },
    }
}

/// On digit strings the denoted number is non-negative.
pub proof fn lemma_uint_val_nonneg(s: Seq<char>)
    requires
        all_digits(s),
    ensures
        uint_val(s) >= 0,
    decreases s.len(),
{
    if s.len() > 0 {
        let t = s.take(s.len() - 1);
        assert forall|i: int| 0 <= i < t.len() implies is_digit_spec(t[i]) by {
            assert(t[i] == s[i]);
        }
        lemma_uint_val_nonneg(t);
    }
}

/// Appending digits never decreases the denoted number.
pub proof fn lemma_uint_val_mono(s: Seq<char>, k: int)
    requires
        all_digits(s),
        0 <= k <= s.len(),
    ensures
        uint_val(s) >= uint_val(s.take(k)),
    decreases s.len() - k,
{
    if k < s.len() {
        let t = s.take(s.len() - 1);
        assert forall|i: int| 0 <= i < t.len() implies is_digit_spec(t[i]) by {
            assert(t[i] == s[i]);
        }
        assert(t.take(k) =~= s.take(k));
        lemma_uint_val_mono(t, k);
        lemma_uint_val_nonneg(t);
        assert(is_digit_spec(s[s.len() - 1]));
        assert(digit_val(s[s.len() - 1]) >= 0);
        assert(uint_val(s) == uint_val(t) * 10 + digit_val(s[s.len() - 1]));
        assert(uint_val(t) * 10 >= uint_val(t));
    } else {
        assert(s.take(k) =~= s);
    }
}

/// Converts one token (or, for a trail field, the whole residual text) into
/// a value of the requested type.
pub fn parse_value(ty: FieldTy, text: &[char]) -> (r: Option<Value>)
    ensures
        (match r {
            Some(v) => convert_spec(ty, text@) == Some(v@),
            None => convert_spec(ty, text@) is None,
        }),
{
    match ty {
        FieldTy::Str => {
            let s = chars_to_string(text);
            Some(Value::Str(s))
        },
        FieldTy::Bool => {
            if text.len() == 4 && *slice_index_get(text, 0) == 't' && *slice_index_get(text, 1)
                == 'r' && *slice_index_get(text, 2) == 'u' && *slice_index_get(text, 3) == 'e' {
                assert(text@ =~= true_chars());
                Some(Value::Bool(true))
            } else if text.len() == 5 && *slice_index_get(text, 0) == 'f' && *slice_index_get(
                text,
                1,
            ) == 'a' && *slice_index_get(text, 2) == 'l' && *slice_index_get(text, 3) == 's'
                && *slice_index_get(text, 4) == 'e' {
                assert(text@ =~= false_chars());
                Some(Value::Bool(false))
            } else {
                proof {
                    if text@ == true_chars() {
                        assert(text@.len() == 4);
                        assert(text@[0] == 't' && text@[1] == 'r' && text@[2] == 'u' && text@[3]
                            == 'e');
                    }
                    if text@ == false_chars() {
                        assert(text@.len() == 5);
                        assert(text@[0] == 'f' && text@[1] == 'a' && text@[2] == 'l' && text@[3]
                            == 's' && text@[4] == 'e');
                    }
                }
                None
            }
        },
        FieldTy::Int => parse_uint(text),
    }
}

fn parse_uint(text: &[char]) -> (r: Option<Value>)
    ensures
        (match r {
            Some(v) => convert_spec(FieldTy::Int, text@) == Some(v@),
            None => convert_spec(FieldTy::Int, text@) is None,
        }),
{
    let d: &[char] = if text.len() > 0 && *slice_index_get(text, 0) == '+' {
        let rest = slice_subrange(text, 1, text.len());
        assert(rest@ =~= text@.skip(1));
        rest
    } else {
        text
    };
    assert(d@ == digits_of(text@));
    let n = d.len();
    if n == 0 {
        assert(!is_uint_literal(text@));
        return None;
    }
    let mut acc: u64 = 0;
    let mut i: usize = 0;
    loop
        invariant
            0 <= i <= n,
            n == d@.len(),
            n > 0,
            d@ == digits_of(text@),
            forall|j: int| 0 <= j < i ==> is_digit_spec(d@[j]),
            acc == uint_val(d@.take(i as int)),
        ensures
            i == n,
            forall|j: int| 0 <= j < n ==> is_digit_spec(d@[j]),
            acc == uint_val(d@.take(n as int)),
        decreases n - i,
    {
        if i == n {
            break ;
        }
        let c = *slice_index_get(d, i);
        let u = c as u32;
        if u < 48 || u > 57 {
            proof {
                assert(!is_digit_spec(d@[i as int]));
                assert(!all_digits(d@));
            }
            return None;
        }
        let dv = (u - 48) as u64;
        proof {
            assert(digit_val(d@[i as int]) == dv as int);
        }
        if acc > (u64::MAX - dv) / 10 {
            proof {
                let q = ((u64::MAX - dv) / 10) as int;
                assert(10 * q <= u64::MAX - dv < 10 * (q + 1)) by (nonlinear_arith)
                    requires
                        q == ((u64::MAX - dv) / 10) as int,
                        0 <= dv < 10,
                ;
                assert(acc as int >= q + 1);
                assert(acc as int * 10 >= (q + 1) * 10) by (nonlinear_arith)
                    requires
                        acc as int >= q + 1,
                ;
                let pre = d@.take(i as int + 1);
                assert(pre.take(i as int) =~= d@.take(i as int));
                assert(pre[i as int] == d@[i as int]);
                assert(uint_val(pre) == acc as int * 10 + dv);
                assert(uint_val(pre) > u64::MAX);
                if all_digits(d@) {
                    lemma_uint_val_mono(d@, i as int + 1);
                    assert(uint_val(d@) > u64::MAX);
                }
            }
            return None;
        }
        proof {
            let q = ((u64::MAX - dv) / 10) as int;
            assert(10 * q <= u64::MAX - dv) by (nonlinear_arith)
                requires
                    q == ((u64::MAX - dv) / 10) as int,
                    0 <= dv < 10,
            ;
            assert(acc as int * 10 <= q * 10) by (nonlinear_arith)
                requires
                    acc as int <= q,
            ;
            let pre = d@.take(i as int + 1);
            assert(pre.take(i as int) =~= d@.take(i as int));
            assert(pre[i as int] == d@[i as int]);
        }
        acc = acc * 10 + dv;
        i += 1;
    }
    assert(d@.take(n as int) =~= d@);
    assert(is_uint_literal(text@));
    assert(uint_val(digits_of(text@)) == acc as int);
    Some(Value::Int(acc))
}

} // verus!
