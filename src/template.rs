//! The positional format language of module values.
//!
//! A format string is cut after every `}`. In each piece the text before the
//! first `{` is literal and the digit right after it is a one-based index into
//! the module's positional values. A piece whose value is empty is dropped
//! whole, literal included; a piece without `{` is dropped too.
use vstd::prelude::*;
use crate::error::{FetchError, Fault, text_result};
use crate::text::{chars_of, push_char, push_str, string_of_range};

verus! {

/// The first position at or after `i` that holds `c`, or the length of `s`.
pub open spec fn next_at(s: Seq<char>, c: char, i: int) -> int
    decreases s.len() - i,
{
    if i < 0 || i >= s.len() {
        s.len() as int
    } else if s[i] == c {
        i
    } else {
        next_at(s, c, i + 1)
    }
}

pub proof fn lemma_next_at_bounds(s: Seq<char>, c: char, i: int)
    requires
        0 <= i <= s.len(),
    ensures
        i <= next_at(s, c, i) <= s.len(),
        next_at(s, c, i) < s.len() ==> s[next_at(s, c, i)] == c,
        forall|k: int| i <= k < next_at(s, c, i) ==> #[trigger] s[k] != c,
    decreases s.len() - i,
{
    if i < s.len() && s[i] != c {
        lemma_next_at_bounds(s, c, i + 1);
    }
}

/// Where the piece that starts at `i` ends: just past the next `}`, or at
/// the end of the string.
pub open spec fn piece_end(f: Seq<char>, i: int) -> int {
    let j = next_at(f, '}', i);
    if j < f.len() {
        j + 1
    } else {
        f.len() as int
    }
}

/// The value of a decimal digit character, if it is one.
pub open spec fn digit_value(c: char) -> Option<nat> {
    if '0' <= c && c <= '9' {
        Some((c as nat - '0' as nat) as nat)
    } else {
        None
    }
}

/// What the piece `f[i..end]` contributes.
pub open spec fn piece_output(f: Seq<char>, vals: Seq<Seq<char>>, i: int, end: int) -> Result<
    Seq<char>,
    Fault,
> {
    let k = next_at(f, '{', i);
    if k >= end {
        Ok(Seq::empty())
    } else if k + 1 >= end || digit_value(f[k + 1]) is None {
        Err(Fault::BadPlaceholder(f.subrange(i, end)))
    } else {
        let d = digit_value(f[k + 1])->Some_0;
        if d == 0 || d > vals.len() {
            Err(Fault::PlaceholderOutOfRange(f.subrange(i, end)))
        } else if vals[d - 1].len() == 0 {
            Ok(Seq::empty())
        } else {
            Ok(f.subrange(i, k) + vals[d - 1])
        }
    }
}

/// `piece` in front of the rendering of what follows it.
pub open spec fn prepend(piece: Seq<char>, rest: Result<Seq<char>, Fault>) -> Result<
    Seq<char>,
    Fault,
> {
    match rest {
        Ok(r) => Ok(piece + r),
        Err(e) => Err(e),
    }
}

#[via_fn]
proof fn render_from_decreases(f: Seq<char>, vals: Seq<Seq<char>>, i: int) {
    if 0 <= i < f.len() {
        lemma_next_at_bounds(f, '}', i);
    }
}

/// The rendering of `f[i..]`: its pieces in order, or the fault of the first
/// piece that has one.
pub open spec fn render_from(f: Seq<char>, vals: Seq<Seq<char>>, i: int) -> Result<
    Seq<char>,
    Fault,
>
    decreases f.len() - i,
    via render_from_decreases
{
    if i < 0 || i >= f.len() {
        Ok(Seq::empty())
    } else {
        let end = piece_end(f, i);
        match piece_output(f, vals, i, end) {
            Err(e) => Err(e),
            Ok(p) => prepend(p, render_from(f, vals, end)),
        }
    }
}

/// The value that format `f` gives to the positional values `vals`.
pub open spec fn render(f: Seq<char>, vals: Seq<Seq<char>>) -> Result<Seq<char>, Fault> {
    render_from(f, vals, 0)
}

/// The values joined by single spaces, empty values left out.
pub open spec fn join_words(vals: Seq<Seq<char>>) -> Seq<char>
    decreases vals.len(),
{
    if vals.len() == 0 {
        Seq::empty()
    } else {
        let rest = join_words(vals.drop_last());
        let last = vals.last();
        if last.len() == 0 {
            rest
        } else if rest.len() == 0 {
            last
        } else {
            rest + seq![' '] + last
        }
    }
}

/// The characters of each string.
pub open spec fn views(v: Seq<String>) -> Seq<Seq<char>> {
    v.map_values(|s: String| s@)
}

/// The first position at or after `i` where `v` holds `c`, or its length.
fn find_from(v: &Vec<char>, c: char, i: usize) -> (r: usize)
    requires
        i <= v@.len(),
    ensures
        r == next_at(v@, c, i as int),
{
    let mut j: usize = i;
    while j < v.len() && v[j] != c
        invariant
            i <= j <= v@.len(),
            next_at(v@, c, i as int) == next_at(v@, c, j as int),
        decreases v@.len() - j,
    {
        j = j + 1;
    }
    j
}

/// Fills the format string `format` with the positional values `vals`.
pub fn render_format(format: &str, vals: &Vec<String>) -> (r: Result<String, FetchError>)
    ensures
        text_result(r) == render(format@, views(vals@)),
{
    let f = chars_of(format);
    let ghost vs = views(vals@);
    let mut out = String::new();
    let mut i: usize = 0;
    while i < f.len()
        invariant
            f@ == format@,
            vs == views(vals@),
            i <= f@.len(),
            render(f@, vs) == prepend(out@, render_from(f@, vs, i as int)),
        decreases f@.len() - i,
    {
        proof {
            lemma_next_at_bounds(f@, '}', i as int);
            lemma_next_at_bounds(f@, '{', i as int);
        }
        let ghost old_out = out@;
        let j = find_from(&f, '}', i);
        let end: usize = if j < f.len() {
            j + 1
        } else {
            f.len()
        };
        let k = find_from(&f, '{', i);
        if k < end {
            if k + 1 >= end || !('0' <= f[k + 1] && f[k + 1] <= '9') {
                return Err(FetchError::BadPlaceholder(string_of_range(&f, i, end)));
            }
            let d: u32 = (f[k + 1] as u32) - ('0' as u32);
            if d == 0 || d as usize > vals.len() {
                return Err(FetchError::PlaceholderOutOfRange(string_of_range(&f, i, end)));
            }
            let v = &vals[(d - 1) as usize];
            assert(vs[d - 1] == v@);
            if v.as_str().unicode_len() > 0 {
                let lit = string_of_range(&f, i, k);
                push_str(&mut out, lit.as_str());
                push_str(&mut out, v.as_str());
            }
        }
        proof {
            let piece = piece_output(f@, vs, i as int, end as int)->Ok_0;
            let rest = render_from(f@, vs, end as int);
            assert(out@ =~= old_out + piece);
            if rest is Ok {
                assert(old_out + (piece + rest->Ok_0) =~= out@ + rest->Ok_0);
            }
        }
        i = end;
    }
    assert(out@ + Seq::<char>::empty() =~= out@);
    Ok(out)
}

/// The positional values joined by single spaces, empty ones left out: the
/// value of a module that has no format.
pub fn join_values(vals: &Vec<String>) -> (r: String)
    ensures
        r@ == join_words(views(vals@)),
{
    let ghost vs = views(vals@);
    let mut out = String::new();
    let mut i: usize = 0;
    assert(vs.subrange(0, 0) =~= Seq::<Seq<char>>::empty());
    while i < vals.len()
        invariant
            vs == views(vals@),
            i <= vals@.len(),
            out@ == join_words(vs.subrange(0, i as int)),
        decreases vals@.len() - i,
    {
        let v = vals[i].as_str();
        assert(vs.subrange(0, i + 1).drop_last() =~= vs.subrange(0, i as int));
        assert(vs.subrange(0, i + 1).last() == v@);
        if v.unicode_len() > 0 {
            if out.as_str().unicode_len() > 0 {
                push_char(&mut out, ' ');
            }
            push_str(&mut out, v);
        }
        i = i + 1;
    }
    assert(vs.subrange(0, vals@.len() as int) =~= vs);
    out
}

} // verus!
