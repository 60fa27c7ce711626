//! Small verified text utilities: decimal rendering of integers,
//! joining strings with a separator, and the two trusted bridges to
//! std that the rest of the crate builds strings with.

use vstd::prelude::*;
use vstd::string::*;

verus! {

/// The decimal digit character for a value below ten.
pub open spec fn dec_digit(d: nat) -> char {
    if d == 0 {
        '0'
    } else if d == 1 {
        '1'
    } else if d == 2 {
        '2'
    } else if d == 3 {
        '3'
    } else if d == 4 {
        '4'
    } else if d == 5 {
        '5'
    } else if d == 6 {
        '6'
    } else if d == 7 {
        '7'
    } else if d == 8 {
        '8'
    } else {
        '9'
    }
}

/// The decimal rendering of a natural number, most significant digit first.
pub open spec fn dec_rep(n: nat) -> Seq<char>
    decreases n,
{
    if n < 10 {
        seq![dec_digit(n)]
    } else {
        dec_rep(n / 10).push(dec_digit(n % 10))
    }
}

/// The decimal rendering of an integer, with a leading minus sign when negative.
pub open spec fn dec_int(v: int) -> Seq<char> {
    if v >= 0 {
        dec_rep(v as nat)
    } else {
        seq!['-'] + dec_rep((-v) as nat)
    }
}

/// Relies on String::from_iter over characters: collecting an iterator of
/// characters yields the string with exactly those characters in order.
#[verifier::external_body]
pub(crate) fn string_from_chars(v: &Vec<char>) -> (r: String)
    ensures
        r@ == v@,
{
    v.iter().copied().collect()
}

/// Relies on str's PartialEq: two string slices compare equal exactly when
/// their character sequences do.
#[verifier::external_body]
pub(crate) fn str_eq(a: &str, b: &str) -> (r: bool)
    ensures
        r == (a@ == b@),
{
    a == b
}

fn digit_char(d: u64) -> (r: char)
    requires
        d < 10,
    ensures
        r == dec_digit(d as nat),
{
    if d == 0 {
        '0'
    } else if d == 1 {
        '1'
    } else if d == 2 {
        '2'
    } else if d == 3 {
        '3'
    } else if d == 4 {
        '4'
    } else if d == 5 {
        '5'
    } else if d == 6 {
        '6'
    } else if d == 7 {
        '7'
    } else if d == 8 {
        '8'
    } else {
        '9'
    }
}

/// Appends the decimal digits of `n` to `out`, most significant first.
pub(crate) fn push_digits(n: u64, out: &mut Vec<char>)
    ensures
        final(out)@ == old(out)@ + dec_rep(n as nat),
    decreases n,
{
    if n >= 10 {
        proof {
            assert(n / 10 < n) by (nonlinear_arith)
                requires
                    n >= 10,
            ;
        }
        push_digits(n / 10, out);
    }
    out.push(digit_char(n % 10));
    proof {
        assert(out@ =~= old(out)@ + dec_rep(n as nat));
    }
}

/// The decimal rendering of a `u64`.
pub fn u64_to_string(n: u64) -> (r: String)
    ensures
        r@ == dec_rep(n as nat),
{
    let mut chars: Vec<char> = Vec::new();
    push_digits(n, &mut chars);
    proof {
        assert(chars@ =~= dec_rep(n as nat));
    }
    string_from_chars(&chars)
}

/// The decimal rendering of an `i32`, with a minus sign when negative.
pub fn i32_to_string(v: i32) -> (r: String)
    ensures
        r@ == dec_int(v as int),
{
    if v >= 0 {
        u64_to_string(v as u64)
    } else {
        let m: i64 = -(v as i64);
        let mut chars: Vec<char> = Vec::new();
        chars.push('-');
        push_digits(m as u64, &mut chars);
        proof {
            assert(chars@ =~= seq!['-'] + dec_rep((m as u64) as nat));
        }
        string_from_chars(&chars)
    }
}

/// The views of a sequence of strings.
pub open spec fn seq_views(v: Seq<String>) -> Seq<Seq<char>> {
    v.map_values(|s: String| s@)
}

/// The strings of `parts` laid end to end with `sep` between neighbours.
pub open spec fn join_view(parts: Seq<Seq<char>>, sep: Seq<char>) -> Seq<char>
    decreases parts.len(),
{
    if parts.len() == 0 {
        Seq::empty()
    } else if parts.len() == 1 {
        parts[0]
    } else {
        parts[0] + sep + join_view(parts.drop_first(), sep)
    }
}

proof fn lemma_join_push(parts: Seq<Seq<char>>, sep: Seq<char>, x: Seq<char>)
    ensures
        join_view(parts.push(x), sep) == if parts.len() == 0 {
            x
        } else {
            join_view(parts, sep) + sep + x
        },
    decreases parts.len(),
{
    if parts.len() == 0 {
        assert(parts.push(x).len() == 1);
        assert(parts.push(x)[0] == x);
    } else if parts.len() == 1 {
        assert(parts.push(x).drop_first() =~= seq![x]);
        assert(seq![x].len() == 1);
        assert(join_view(seq![x], sep) == seq![x][0]);
        assert(seq![x][0] == x);
        assert(parts.push(x)[0] == parts[0]);
        assert(join_view(parts.push(x), sep) == parts[0] + sep + x);
        assert(join_view(parts, sep) == parts[0]);
    } else {
        assert(parts.push(x).drop_first() =~= parts.drop_first().push(x));
        lemma_join_push(parts.drop_first(), sep, x);
        assert(join_view(parts.push(x), sep) == parts[0] + sep + (join_view(
            parts.drop_first(),
            sep,
        ) + sep + x));
        assert(parts[0] + sep + (join_view(parts.drop_first(), sep) + sep + x) =~= (parts[0] + sep
            + join_view(parts.drop_first(), sep)) + sep + x);
    }
}

/// Joins the strings of `parts` with `sep` between neighbours.
pub fn join_with(parts: &Vec<String>, sep: &str) -> (r: String)
    ensures
        r@ == join_view(seq_views(parts@), sep@),
{
    let mut out = String::new();
    let mut i: usize = 0;
    while i < parts.len()
        invariant
            i <= parts.len(),
            i == 0 ==> out@ == Seq::<char>::empty(),
            i >= 1 ==> out@ == join_view(seq_views(parts@.take(i as int)), sep@),
        decreases parts.len() - i,
    {
        if i > 0 {
            out.append(sep);
        }
        out.append(parts[i].as_str());
        proof {
            assert(seq_views(parts@.take(i + 1 as int)) =~= seq_views(parts@.take(i as int)).push(
                parts@[i as int]@,
            ));
            lemma_join_push(seq_views(parts@.take(i as int)), sep@, parts@[i as int]@);
        }
        i = i + 1;
    }
    proof {
        if parts@.len() == 0 {
            assert(join_view(seq_views(parts@), sep@) =~= Seq::<char>::empty());
        } else {
            assert(parts@.take(parts@.len() as int) =~= parts@);
        }
    }
    out
}

} // verus!
