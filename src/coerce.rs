use vstd::prelude::*;
use vstd::string::*;
use crate::value::{ErrorV, ScalarKind, Value, ValueV, XmlError, value_result};

verus! {

/// The literals read as `true`, case-sensitively.
pub open spec fn is_true_literal(s: Seq<char>) -> bool {
    s == seq!['t'] || s == seq!['t', 'r', 'u', 'e'] || s == seq!['y'] || s == seq!['y', 'e', 's']
        || s == seq!['o', 'n'] || s == seq!['1']
}

/// The literals read as `false`, case-sensitively.
pub open spec fn is_false_literal(s: Seq<char>) -> bool {
    s == seq!['f'] || s == seq!['f', 'a', 'l', 's', 'e'] || s == seq!['n'] || s == seq!['n', 'o']
        || s == seq!['o', 'f', 'f'] || s == seq!['0']
}

/// What the standard integer parser gives for a text.
pub uninterp spec fn int_of_text(s: Seq<char>) -> Option<i64>;

/// What the standard boolean parser accepts: exactly `"true"` and `"false"`.
pub open spec fn std_bool_of(s: Seq<char>) -> Option<bool> {
    if s == seq!['t', 'r', 'u', 'e'] {
        Some(true)
    } else if s == seq!['f', 'a', 'l', 's', 'e'] {
        Some(false)
    } else {
        None
    }
}

/// Coercion of a text value into a scalar of the given kind.
pub open spec fn coerce_spec(kind: ScalarKind, text: Seq<char>) -> Result<ValueV, ErrorV> {
    match kind {
        ScalarKind::Str => Ok(ValueV::Str(text)),
        ScalarKind::Bool => if is_true_literal(text) {
            Ok(ValueV::Bool(true))
        } else if is_false_literal(text) {
            Ok(ValueV::Bool(false))
        } else {
            match std_bool_of(text) {
                Some(b) => Ok(ValueV::Bool(b)),
                None => Err(ErrorV::FromStr { kind, text }),
            }
        },
        ScalarKind::Int => int_outcome(int_of_text(text), text),
    }
}

/// The outcome of coercing `text` to an integer, given what the integer
/// parser made of it.
pub open spec fn int_outcome(parsed: Option<i64>, text: Seq<char>) -> Result<ValueV, ErrorV> {
    match parsed {
        Some(n) => Ok(ValueV::Int(n)),
        None => Err(ErrorV::FromStr { kind: ScalarKind::Int, text }),
    }
}

/// Turns what the integer parser made of `text` into a value or a `FromStr`
/// error carrying the text.
pub fn int_from_parsed(parsed: Option<i64>, text: &String) -> (r: Result<Value, XmlError>)
    ensures
        value_result(r) == int_outcome(parsed, text@),
{
    match parsed {
        Some(n) => Ok(Value::Int(n)),
        None => Err(XmlError::FromStr { kind: ScalarKind::Int, text: text.clone() }),
    }
}

/// Relies on `<i64 as FromStr>::from_str`: its result depends on the text alone,
/// and an empty text is rejected.
#[verifier::external_body]
fn std_parse_int(s: &str) -> (r: Option<i64>)
    ensures
        r == int_of_text(s@),
        s@.len() == 0 ==> r is None,
{
    s.parse::<i64>().ok()
}

/// Relies on `<bool as FromStr>::from_str`: `"true"` and `"false"` are accepted,
/// anything else is an error.
#[verifier::external_body]
fn std_parse_bool(s: &str) -> (r: Option<bool>)
    ensures
        r == std_bool_of(s@),
{
    s.parse::<bool>().ok()
}

/// Whether `s` holds exactly the characters of `lit`.
fn text_is(s: &str, lit: &str) -> (r: bool)
    ensures
        r == (s@ == lit@),
{
    let n = s.unicode_len();
    let m = lit.unicode_len();
    if n != m {
        return false;
    }
    let mut i: usize = 0;
    while i < n
        invariant
            n == s@.len(),
            m == lit@.len(),
            n == m,
            i <= n,
            forall|k: int| 0 <= k < i ==> s@[k] == lit@[k],
        decreases n - i,
    {
        if s.get_char(i) != lit.get_char(i) {
            return false;
        }
        i = i + 1;
    }
    assert(s@ =~= lit@);
    true
}

fn bool_literal(s: &str) -> (r: Option<bool>)
    ensures
        r == (if is_true_literal(s@) {
            Some(true)
        } else if is_false_literal(s@) {
            Some(false)
        } else {
            None::<bool>
        }),
{
    proof {
        reveal_strlit("t");
        assert("t"@ =~= seq!['t']);
        reveal_strlit("true");
        assert("true"@ =~= seq!['t', 'r', 'u', 'e']);
        reveal_strlit("y");
        assert("y"@ =~= seq!['y']);
        reveal_strlit("yes");
        assert("yes"@ =~= seq!['y', 'e', 's']);
        reveal_strlit("on");
        assert("on"@ =~= seq!['o', 'n']);
        reveal_strlit("1");
        assert("1"@ =~= seq!['1']);
        reveal_strlit("f");
        assert("f"@ =~= seq!['f']);
        reveal_strlit("false");
        assert("false"@ =~= seq!['f', 'a', 'l', 's', 'e']);
        reveal_strlit("n");
        assert("n"@ =~= seq!['n']);
        reveal_strlit("no");
        assert("no"@ =~= seq!['n', 'o']);
        reveal_strlit("off");
        assert("off"@ =~= seq!['o', 'f', 'f']);
        reveal_strlit("0");
        assert("0"@ =~= seq!['0']);
    }
    if text_is(s, "t") || text_is(s, "true") || text_is(s, "y") || text_is(s, "yes") || text_is(
        s,
        "on",
    ) || text_is(s, "1") {
        Some(true)
    } else if text_is(s, "f") || text_is(s, "false") || text_is(s, "n") || text_is(s, "no")
        || text_is(s, "off") || text_is(s, "0") {
        Some(false)
    } else {
        None
    }
}

/// Converts a text value into a scalar of `kind`. Strings pass through;
/// booleans accept the literal table before the standard parser; integers go
/// to the standard parser. A failure is `FromStr` carrying the text.
pub fn coerce(kind: ScalarKind, text: &String) -> (r: Result<Value, XmlError>)
    ensures
        value_result(r) == coerce_spec(kind, text@),
        r matches Ok(v) ==> !(v is Rec),
{
    match kind {
        ScalarKind::Str => Ok(Value::Str(text.clone())),
        ScalarKind::Bool => match bool_literal(text.as_str()) {
            Some(b) => Ok(Value::Bool(b)),
            None => match std_parse_bool(text.as_str()) {
                Some(b) => Ok(Value::Bool(b)),
                None => Err(XmlError::FromStr { kind, text: text.clone() }),
            },
        },
        ScalarKind::Int => int_from_parsed(std_parse_int(text.as_str()), text),
    }
}

} // verus!
