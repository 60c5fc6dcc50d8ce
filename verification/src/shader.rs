use vstd::prelude::*;
use vstd::string::StrSliceExecFns;

use crate::errors::PipeError;
use crate::pipeline::{Expr, ExprV};

verus! {

/// A uniform value ready for the render backend, with float components as
/// IEEE 754 bit patterns and colors as the three decoded channels.
#[derive(Debug, PartialEq)]
pub enum UniformValue {
    F1(u32),
    F2(u32, u32),
    F3(u32, u32, u32),
    F4(u32, u32, u32, u32),
    /// The three channels of a `"#rrggbb"` literal, each 0 to 255; the
    /// backend scales them to 0 to 1.
    Rgb(u8, u8, u8),
}

/// A lowercase hexadecimal digit.
pub open spec fn is_hex_digit(c: char) -> bool {
    ('0' <= c && c <= '9') || ('a' <= c && c <= 'f')
}

/// The value of a lowercase hexadecimal digit.
pub open spec fn hex_val(c: char) -> int {
    if '0' <= c && c <= '9' {
        c as int - '0' as int
    } else {
        c as int - 'a' as int + 10
    }
}

/// A well-formed color literal: `#` followed by exactly six lowercase
/// hexadecimal digits.
pub open spec fn valid_color(s: Seq<char>) -> bool {
    s.len() == 7 && s[0] == '#' && forall|i: int| 1 <= i < 7 ==> is_hex_digit(#[trigger] s[i])
}

/// One decoded channel: the byte named by two hexadecimal digits.
pub open spec fn channel(s: Seq<char>, i: int) -> int {
    16 * hex_val(s[i]) + hex_val(s[i + 1])
}

/// The value of one lowercase hexadecimal digit character, if it is one.
fn hex_digit(c: char) -> (r: Option<u8>)
    ensures
        r is Some <==> is_hex_digit(c),
        r is Some ==> r->0 == hex_val(c) && r->0 <= 15,
{
    let u = c as u32;
    if 48 <= u && u <= 57 {
        Some((u - 48) as u8)
    } else if 97 <= u && u <= 102 {
        Some((u - 97 + 10) as u8)
    } else {
        None
    }
}

/// Decodes a `"#rrggbb"` literal to its three channels, exactly when it is
/// well formed; any other string is a configuration error.
pub fn decode_color(s: &String) -> (r: Result<(u8, u8, u8), PipeError>)
    ensures
        r is Ok <==> valid_color(s@),
        r is Ok ==> ({
            let (cr, cg, cb) = r->Ok_0;
            cr == channel(s@, 1) && cg == channel(s@, 3) && cb == channel(s@, 5)
        }),
        r is Err ==> r->Err_0@ == crate::errors::ErrView::Config(s@),
{
    let st = s.as_str();
    if st.unicode_len() != 7 {
        return Err(PipeError::Config(s.clone()));
    }
    if st.get_char(0) != '#' {
        return Err(PipeError::Config(s.clone()));
    }
    let d1 = hex_digit(st.get_char(1));
    let d2 = hex_digit(st.get_char(2));
    let d3 = hex_digit(st.get_char(3));
    let d4 = hex_digit(st.get_char(4));
    let d5 = hex_digit(st.get_char(5));
    let d6 = hex_digit(st.get_char(6));
    match (d1, d2, d3, d4, d5, d6) {
        (Some(a), Some(b), Some(c), Some(d), Some(e), Some(f)) => {
            Ok((16 * a + b, 16 * c + d, 16 * e + f))
        },
        _ => Err(PipeError::Config(s.clone())),
    }
}

/// The uniform value a literal expression resolves to, or nothing when it
/// is a malformed color literal.
pub open spec fn uniform_of(e: ExprV) -> Option<UniformValue> {
    match e {
        ExprV::Float(a) => Some(UniformValue::F1(a)),
        ExprV::Vec2(a, b) => Some(UniformValue::F2(a, b)),
        ExprV::Vec3(a, b, c) => Some(UniformValue::F3(a, b, c)),
        ExprV::Vec4(a, b, c, d) => Some(UniformValue::F4(a, b, c, d)),
        ExprV::ColorString(s) => if valid_color(s) {
            Some(
                UniformValue::Rgb(
                    channel(s, 1) as u8,
                    channel(s, 3) as u8,
                    channel(s, 5) as u8,
                ),
            )
        } else {
            None
        },
    }
}

/// Turns a literal expression into the uniform value the backend binds:
/// float and vector literals pass through unchanged, and a color string is
/// decoded exactly when it is a well-formed `#rrggbb` literal.
pub fn uniform_expr(expr: &Expr) -> (r: Result<UniformValue, PipeError>)
    ensures
        uniform_of(expr@) is Some <==> r is Ok,
        uniform_of(expr@) is Some ==> r == Result::<UniformValue, PipeError>::Ok(
            uniform_of(expr@)->0,
        ),
        r is Err ==> (expr@ matches ExprV::ColorString(s) && r->Err_0@
            == crate::errors::ErrView::Config(s)),
{
    match expr {
        Expr::Float(a) => Ok(UniformValue::F1(*a)),
        Expr::Vec2(a, b) => Ok(UniformValue::F2(*a, *b)),
        Expr::Vec3(a, b, c) => Ok(UniformValue::F3(*a, *b, *c)),
        Expr::Vec4(a, b, c, d) => Ok(UniformValue::F4(*a, *b, *c, *d)),
        Expr::ColorString(s) => {
            match decode_color(s) {
                Ok((cr, cg, cb)) => Ok(UniformValue::Rgb(cr, cg, cb)),
                Err(e) => Err(e),
            }
        },
    }
}

} // verus!
