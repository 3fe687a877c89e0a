//! The compositor: sets the art block and the module lines side by side.
use vstd::prelude::*;
use crate::config::{
    Config, Display, DisplayTextField, Module, Modules, ResolvedModule, ResolvedView, label_text,
    lemma_type_names_distinct, opt_text, resolve_view,
};
use crate::osrelease::OsInfo;
use crate::error::{FetchError, Fault, text_result};
use crate::template::{lemma_next_at_bounds, next_at, views};
use crate::text::{
    chars_of, pad_right, pad_right_string, push_char, push_str, repeat, repeat_char, same_text,
    string_of_range, sub_or_zero,
};

verus! {

#[via_fn]
proof fn lines_from_decreases(s: Seq<char>, i: int) {
    if 0 <= i < s.len() {
        lemma_next_at_bounds(s, '\n', i);
    }
}

/// The non-empty lines of `s[i..]`, cut at each line feed.
pub open spec fn lines_from(s: Seq<char>, i: int) -> Seq<Seq<char>>
    decreases s.len() + 1 - i,
    via lines_from_decreases
{
    if i < 0 || i >= s.len() {
        Seq::empty()
    } else {
        let j = next_at(s, '\n', i);
        let piece = s.subrange(i, j);
        let rest = lines_from(s, j + 1);
        if piece.len() == 0 {
            rest
        } else {
            seq![piece] + rest
        }
    }
}

/// The non-empty lines of the art block.
pub open spec fn art_rows(art: Seq<char>) -> Seq<Seq<char>> {
    lines_from(art, 0)
}

/// The length of the longest line, or zero.
pub open spec fn max_len(lines: Seq<Seq<char>>) -> nat
    decreases lines.len(),
{
    if lines.len() == 0 {
        0
    } else {
        let m = max_len(lines.drop_last());
        if lines.last().len() > m {
            lines.last().len()
        } else {
            m
        }
    }
}

pub proof fn lemma_max_len(lines: Seq<Seq<char>>)
    ensures
        forall|i: int| 0 <= i < lines.len() ==> #[trigger] lines[i].len() <= max_len(lines),
        lines.len() > 0 ==> exists|i: int| 0 <= i < lines.len() && #[trigger] lines[i].len() == max_len(lines),
    decreases lines.len(),
{
    if lines.len() > 0 {
        let init = lines.drop_last();
        lemma_max_len(init);
        assert forall|i: int| 0 <= i < lines.len() implies #[trigger] lines[i].len() <= max_len(lines) by {
            if i < init.len() {
                assert(lines[i] == init[i]);
            }
        }
        if lines.last().len() <= max_len(init) && init.len() > 0 {
            let k = choose|k: int| 0 <= k < init.len() && #[trigger] init[k].len() == max_len(init);
            assert(lines[k] == init[k]);
        }
    }
}

/// Every line padded with spaces on the right to `w` characters.
pub open spec fn pad_all(lines: Seq<Seq<char>>, w: nat) -> Seq<Seq<char>> {
    lines.map_values(|l: Seq<char>| pad_right(l, w))
}

/// The non-empty lines of `art`.
pub fn split_art(art: &str) -> (r: Vec<String>)
    ensures
        views(r@) == art_rows(art@),
{
    let f = chars_of(art);
    let mut out: Vec<String> = Vec::new();
    let mut i: usize = 0;
    while i < f.len()
        invariant
            f@ == art@,
            i <= f@.len(),
            views(out@) + lines_from(f@, i as int) == art_rows(f@),
        decreases f@.len() - i,
    {
        proof {
            lemma_next_at_bounds(f@, '\n', i as int);
        }
        let mut j: usize = i;
        while j < f.len() && f[j] != '\n'
            invariant
                i <= j <= f@.len(),
                next_at(f@, '\n', i as int) == next_at(f@, '\n', j as int),
            decreases f@.len() - j,
        {
            j = j + 1;
        }
        let ghost before = views(out@);
        if j > i {
            let piece = string_of_range(&f, i, j);
            out.push(piece);
            assert(views(out@) =~= before.push(f@.subrange(i as int, j as int)));
            assert(before + lines_from(f@, i as int) =~= views(out@) + lines_from(f@, j + 1));
        } else {
            assert(f@.subrange(i as int, j as int) =~= Seq::<char>::empty());
        }
        if j < f.len() {
            i = j + 1;
        } else {
            i = j;
        }
    }
    assert(views(out@) + Seq::<Seq<char>>::empty() =~= views(out@));
    out
}

/// The character count of the longest string, or zero.
pub fn widest(lines: &Vec<String>) -> (r: usize)
    ensures
        r == max_len(views(lines@)),
{
    let ghost vs = views(lines@);
    let mut m: usize = 0;
    let mut i: usize = 0;
    assert(vs.subrange(0, 0) =~= Seq::<Seq<char>>::empty());
    while i < lines.len()
        invariant
            vs == views(lines@),
            i <= lines@.len(),
            m == max_len(vs.subrange(0, i as int)),
        decreases lines@.len() - i,
    {
        assert(vs.subrange(0, i + 1).drop_last() =~= vs.subrange(0, i as int));
        let n = lines[i].as_str().unicode_len();
        if n > m {
            m = n;
        }
        i = i + 1;
    }
    assert(vs.subrange(0, lines@.len() as int) =~= vs);
    m
}

/// Every string padded with spaces on the right to `w` characters.
pub fn pad_lines(lines: &Vec<String>, w: usize) -> (r: Vec<String>)
    ensures
        views(r@) == pad_all(views(lines@), w as nat),
{
    let mut out: Vec<String> = Vec::new();
    let mut i: usize = 0;
    while i < lines.len()
        invariant
            i <= lines@.len(),
            views(out@) == pad_all(views(lines@), w as nat).subrange(0, i as int),
        decreases lines@.len() - i,
    {
        let ghost before = views(out@);
        out.push(pad_right_string(lines[i].as_str(), w));
        assert(views(out@) =~= before.push(pad_right(lines@[i as int]@, w as nat)));
        assert(pad_all(views(lines@), w as nat)[i as int] == pad_right(lines@[i as int]@, w as nat));
        i = i + 1;
        assert(views(out@) =~= pad_all(views(lines@), w as nat).subrange(0, i as int));
    }
    assert(views(out@) =~= pad_all(views(lines@), w as nat));
    out
}

/// The number of output rows: the height of the taller block.
pub open spec fn height(a: nat, f: nat) -> nat {
    if f > a {
        f
    } else {
        a
    }
}

/// How many rows the shorter of two blocks of heights `a` and `f` starts
/// below the taller one, so that their middles meet.
pub open spec fn wait(a: nat, f: nat) -> nat {
    if f > a {
        (f / 2 - a / 2) as nat
    } else {
        (a / 2 - f / 2) as nat
    }
}

/// The row where the art block starts: the art moves down only when the
/// module lines are more.
pub open spec fn art_shift(a: nat, f: nat) -> nat {
    if f > a {
        wait(a, f)
    } else {
        0
    }
}

/// The row where the module lines start.
pub open spec fn field_shift(a: nat, f: nat) -> nat {
    if f > a {
        0
    } else {
        wait(a, f)
    }
}

/// The line of a block shown on row `i`, if the block covers that row.
pub open spec fn cell(lines: Seq<Seq<char>>, shift: nat, i: int) -> Option<Seq<char>> {
    if shift <= i < shift + lines.len() {
        Some(lines[i - shift])
    } else {
        None
    }
}

/// What the art column shows on row `i`: an art line, or `w` spaces.
pub open spec fn art_cell(art: Seq<Seq<char>>, fields: Seq<Seq<char>>, w: nat, i: int) -> Seq<char> {
    match cell(art, art_shift(art.len(), fields.len()), i) {
        Some(l) => l,
        None => repeat(' ', w),
    }
}

/// What the module column shows on row `i`: a module line, or nothing.
pub open spec fn field_cell(art: Seq<Seq<char>>, fields: Seq<Seq<char>>, i: int) -> Seq<char> {
    match cell(fields, field_shift(art.len(), fields.len()), i) {
        Some(l) => l,
        None => Seq::empty(),
    }
}

/// Output row `i`: two spaces, the art column, two spaces, the module
/// column and a line feed.
pub open spec fn out_row(art: Seq<Seq<char>>, fields: Seq<Seq<char>>, w: nat, i: int) -> Seq<char> {
    seq![' ', ' '] + art_cell(art, fields, w, i) + seq![' ', ' '] + field_cell(art, fields, i) + seq![
        '\n',
    ]
}

/// All output rows, top to bottom.
pub open spec fn out_rows(art: Seq<Seq<char>>, fields: Seq<Seq<char>>, w: nat) -> Seq<Seq<char>> {
    Seq::new(height(art.len(), fields.len()), |i: int| out_row(art, fields, w, i))
}

/// The strings one after the other.
pub open spec fn concat_all(rows: Seq<Seq<char>>) -> Seq<char>
    decreases rows.len(),
{
    if rows.len() == 0 {
        Seq::empty()
    } else {
        concat_all(rows.drop_last()) + rows.last()
    }
}

/// Sets the lines `art`, each `w` characters wide, beside the lines
/// `fields`, the shorter block centred against the taller one.
pub fn merge_columns(art: &Vec<String>, w: usize, fields: &Vec<String>) -> (r: String)
    ensures
        r@ == concat_all(out_rows(views(art@), views(fields@), w as nat)),
{
    let ghost av = views(art@);
    let ghost fv = views(fields@);
    let a = art.len();
    let f = fields.len();
    let h: usize = if f > a {
        f
    } else {
        a
    };
    let wt: usize = if f > a {
        f / 2 - a / 2
    } else {
        a / 2 - f / 2
    };
    let ash: usize = if f > a {
        wt
    } else {
        0
    };
    let fsh: usize = if f > a {
        0
    } else {
        wt
    };
    let blank = repeat_char(' ', w);
    let ghost rows = out_rows(av, fv, w as nat);
    let mut out = String::new();
    let mut i: usize = 0;
    assert(rows.subrange(0, 0) =~= Seq::<Seq<char>>::empty());
    while i < h
        invariant
            av == views(art@),
            fv == views(fields@),
            a == av.len(),
            f == fv.len(),
            h == height(a as nat, f as nat),
            ash == art_shift(a as nat, f as nat),
            fsh == field_shift(a as nat, f as nat),
            blank@ == repeat(' ', w as nat),
            rows == out_rows(av, fv, w as nat),
            rows.len() == h,
            i <= h,
            out@ == concat_all(rows.subrange(0, i as int)),
        decreases h - i,
    {
        let ghost before = out@;
        push_char(&mut out, ' ');
        push_char(&mut out, ' ');
        if ash <= i && i - ash < a {
            push_str(&mut out, art[i - ash].as_str());
        } else {
            push_str(&mut out, blank.as_str());
        }
        push_char(&mut out, ' ');
        push_char(&mut out, ' ');
        if fsh <= i && i - fsh < f {
            push_str(&mut out, fields[i - fsh].as_str());
        }
        push_char(&mut out, '\n');
        assert(out@ =~= before + out_row(av, fv, w as nat, i as int));
        assert(rows.subrange(0, i + 1).drop_last() =~= rows.subrange(0, i as int));
        i = i + 1;
    }
    assert(rows.subrange(0, h as int) =~= rows);
    out
}

/// Every row of the output has the art column, `w` characters wide,
/// between two pairs of spaces, so the module column starts at the same
/// place on every row; and there are as many rows as the taller block has
/// lines.
pub proof fn lemma_rows_aligned(art: Seq<Seq<char>>, fields: Seq<Seq<char>>, w: nat)
    requires
        forall|k: int| 0 <= k < art.len() ==> #[trigger] art[k].len() == w,
    ensures
        out_rows(art, fields, w).len() == if art.len() > fields.len() {
            art.len()
        } else {
            fields.len()
        },
        forall|i: int|
            0 <= i < out_rows(art, fields, w).len() ==> {
                &&& #[trigger] art_cell(art, fields, w, i).len() == w
                &&& out_rows(art, fields, w)[i] == seq![' ', ' '] + art_cell(art, fields, w, i)
                    + seq![' ', ' '] + field_cell(art, fields, i) + seq!['\n']
            },
{
    assert forall|i: int| 0 <= i < out_rows(art, fields, w).len() implies #[trigger] art_cell(
        art,
        fields,
        w,
        i,
    ).len() == w by {
        let c = cell(art, art_shift(art.len(), fields.len()), i);
        if c is Some {
            let k = i - art_shift(art.len(), fields.len());
            assert(art[k].len() == w);
        }
    }
}

/// In the composed output the art lines, padded to the longest of them,
/// are all equally wide, so every row has the module column at the same
/// place; and there are as many rows as the taller block has lines.
pub proof fn lemma_output_aligned(lines: Seq<Seq<char>>, fields: Seq<Seq<char>>)
    ensures
        ({
            let w = max_len(lines);
            let rows = out_rows(pad_all(lines, w), fields, w);
            &&& rows.len() == if lines.len() > fields.len() {
                lines.len()
            } else {
                fields.len()
            }
            &&& forall|i: int|
                0 <= i < rows.len() ==> {
                    &&& #[trigger] art_cell(pad_all(lines, w), fields, w, i).len() == w
                    &&& rows[i] == seq![' ', ' '] + art_cell(pad_all(lines, w), fields, w, i)
                        + seq![' ', ' '] + field_cell(pad_all(lines, w), fields, i) + seq!['\n']
                }
        }),
{
    let w = max_len(lines);
    let padded = pad_all(lines, w);
    lemma_max_len(lines);
    assert forall|k: int| 0 <= k < padded.len() implies #[trigger] padded[k].len() == w by {
        assert(lines[k].len() <= w);
    }
    lemma_rows_aligned(padded, fields, w);
}

/// Whether `s` holds no line feed.
pub open spec fn no_newline(s: Seq<char>) -> bool {
    forall|k: int| 0 <= k < s.len() ==> #[trigger] s[k] != '\n'
}

proof fn lemma_next_at_shift(p: Seq<char>, q: Seq<char>, c: char, k: int)
    requires
        0 <= k <= q.len(),
    ensures
        next_at(p + q, c, p.len() + k) == p.len() + next_at(q, c, k),
    decreases q.len() - k,
{
    if k < q.len() {
        assert((p + q)[p.len() + k] == q[k]);
        lemma_next_at_shift(p, q, c, k + 1);
    }
}

proof fn lemma_next_at_prefix(p: Seq<char>, q: Seq<char>, c: char, i: int)
    requires
        0 <= i <= p.len(),
        next_at(p, c, i) < p.len(),
    ensures
        next_at(p + q, c, i) == next_at(p, c, i),
    decreases p.len() - i,
{
    assert((p + q)[i] == p[i]);
    if p[i] != c {
        lemma_next_at_prefix(p, q, c, i + 1);
    }
}

proof fn lemma_lines_shift(p: Seq<char>, q: Seq<char>, k: int)
    requires
        0 <= k <= q.len() + 1,
    ensures
        lines_from(p + q, p.len() + k) == lines_from(q, k),
    decreases q.len() + 1 - k,
{
    if k < q.len() {
        lemma_next_at_shift(p, q, '\n', k);
        lemma_next_at_bounds(q, '\n', k);
        let j = next_at(q, '\n', k);
        assert((p + q).subrange(p.len() + k, p.len() + j) =~= q.subrange(k, j));
        lemma_lines_shift(p, q, j + 1);
    }
}

/// Text that ends a line (or is empty) splits apart from what follows it.
proof fn lemma_lines_concat(p: Seq<char>, q: Seq<char>, i: int)
    requires
        0 <= i <= p.len(),
        p.len() == 0 || p.last() == '\n',
    ensures
        lines_from(p + q, i) == lines_from(p, i) + lines_from(q, 0),
    decreases p.len() - i,
{
    if i == p.len() {
        lemma_lines_shift(p, q, 0);
        assert(lines_from(p, i) + lines_from(q, 0) =~= lines_from(q, 0));
    } else {
        lemma_next_at_bounds(p, '\n', i);
        let j = next_at(p, '\n', i);
        assert(j < p.len()) by {
            if j == p.len() {
                assert(p[p.len() - 1] != '\n');
            }
        }
        lemma_next_at_prefix(p, q, '\n', i);
        assert((p + q).subrange(i, j) =~= p.subrange(i, j));
        lemma_lines_concat(p, q, j + 1);
        let piece = p.subrange(i, j);
        if piece.len() != 0 {
            assert(seq![piece] + (lines_from(p, j + 1) + lines_from(q, 0)) =~= (seq![piece]
                + lines_from(p, j + 1)) + lines_from(q, 0));
        }
    }
}

proof fn lemma_no_newline_next(b: Seq<char>, i: int)
    requires
        0 <= i <= b.len(),
        no_newline(b),
    ensures
        next_at(b.push('\n'), '\n', i) == b.len(),
    decreases b.len() - i,
{
    if i < b.len() {
        assert(b.push('\n')[i] == b[i]);
        lemma_no_newline_next(b, i + 1);
    }
}

/// A non-empty line without line feed, followed by one, is one line.
proof fn lemma_one_line(b: Seq<char>)
    requires
        b.len() > 0,
        no_newline(b),
    ensures
        lines_from(b.push('\n'), 0) == seq![b],
{
    let s = b.push('\n');
    lemma_no_newline_next(b, 0);
    assert(s.subrange(0, b.len() as int) =~= b);
    assert(lines_from(s, b.len() as int + 1) == Seq::<Seq<char>>::empty());
    assert(lines_from(s, 0) == seq![b] + lines_from(s, b.len() as int + 1));
    assert(seq![b] + Seq::<Seq<char>>::empty() =~= seq![b]);
}

/// Text made of non-empty lines each ended by a line feed splits back into
/// those lines.
proof fn lemma_concat_lines(bodies: Seq<Seq<char>>)
    requires
        forall|k: int| 0 <= k < bodies.len() ==> #[trigger] bodies[k].len() > 0 && no_newline(bodies[k]),
    ensures
        lines_from(concat_all(bodies.map_values(|b: Seq<char>| b.push('\n'))), 0) == bodies,
        bodies.len() > 0 ==> concat_all(bodies.map_values(|b: Seq<char>| b.push('\n'))).last() == '\n',
        bodies.len() == 0 ==> concat_all(bodies.map_values(|b: Seq<char>| b.push('\n'))).len() == 0,
    decreases bodies.len(),
{
    let rows = bodies.map_values(|b: Seq<char>| b.push('\n'));
    if bodies.len() > 0 {
        let init = bodies.drop_last();
        assert(rows.drop_last() =~= init.map_values(|b: Seq<char>| b.push('\n')));
        lemma_concat_lines(init);
        let p = concat_all(rows.drop_last());
        lemma_lines_concat(p, rows.last(), 0);
        lemma_one_line(bodies.last());
        assert(init + seq![bodies.last()] =~= bodies);
    } else {
        assert(lines_from(concat_all(rows), 0) =~= bodies);
    }
}

proof fn lemma_lines_no_newline(s: Seq<char>, i: int)
    requires
        0 <= i <= s.len() + 1,
    ensures
        forall|k: int| 0 <= k < lines_from(s, i).len() ==> #[trigger] no_newline(lines_from(s, i)[k]),
    decreases s.len() + 1 - i,
{
    if 0 <= i < s.len() {
        lemma_next_at_bounds(s, '\n', i);
        let j = next_at(s, '\n', i);
        lemma_lines_no_newline(s, j + 1);
        let piece = s.subrange(i, j);
        assert(no_newline(piece)) by {
            assert forall|k: int| 0 <= k < piece.len() implies #[trigger] piece[k] != '\n' by {
                assert(piece[k] == s[i + k]);
            }
        }
        let l = lines_from(s, i);
        if piece.len() > 0 {
            assert(l == seq![piece] + lines_from(s, j + 1));
            assert forall|k: int| 0 <= k < l.len() implies #[trigger] no_newline(l[k]) by {
                if k > 0 {
                    assert(l[k] == lines_from(s, j + 1)[k - 1]);
                } else {
                    assert(l[0] == piece);
                }
            }
        } else {
            assert(l == lines_from(s, j + 1));
        }
    }
}

proof fn lemma_field_lines_len(
    order: Seq<Seq<char>>,
    rs: Seq<ResolvedView>,
    sep: Seq<char>,
    gap: Option<usize>,
)
    requires
        field_lines(order, rs, sep, gap) is Ok,
    ensures
        field_lines(order, rs, sep, gap)->Ok_0.len() == order.len(),
    decreases order.len(),
{
    if order.len() > 0 {
        lemma_field_lines_len(order.drop_last(), rs, sep, gap);
    }
}

/// The text that composition returns splits, at its line feeds, into
/// exactly one line per line of the taller block; each line is two spaces,
/// the art column as wide as the widest art line, two spaces and the module
/// column. This holds where no module line holds a line feed.
pub proof fn lemma_composed_lines(
    art: Seq<char>,
    order: Seq<Seq<char>>,
    rs: Seq<ResolvedView>,
    tf: DisplayTextField,
)
    requires
        composed(art, order, rs, tf) is Ok,
        forall|k: int|
            0 <= k < field_lines(order, rs, separator_text(tf), tf.gap)->Ok_0.len() ==> no_newline(
                #[trigger] field_lines(order, rs, separator_text(tf), tf.gap)->Ok_0[k],
            ),
    ensures
        ({
            let out = composed(art, order, rs, tf)->Ok_0;
            let lines = art_rows(art);
            let fs = field_lines(order, rs, separator_text(tf), tf.gap)->Ok_0;
            let w = max_len(lines);
            let padded = pad_all(lines, w);
            &&& lines_from(out, 0).len() == if lines.len() > order.len() {
                lines.len()
            } else {
                order.len()
            }
            &&& forall|i: int|
                0 <= i < lines_from(out, 0).len() ==> {
                    &&& #[trigger] art_cell(padded, fs, w, i).len() == w
                    &&& lines_from(out, 0)[i] == seq![' ', ' '] + art_cell(padded, fs, w, i) + seq![
                        ' ',
                        ' ',
                    ] + field_cell(padded, fs, i)
                }
        }),
{
    let lines = art_rows(art);
    let fs = field_lines(order, rs, separator_text(tf), tf.gap)->Ok_0;
    let w = max_len(lines);
    let padded = pad_all(lines, w);
    let rows = out_rows(padded, fs, w);
    lemma_field_lines_len(order, rs, separator_text(tf), tf.gap);
    lemma_output_aligned(lines, fs);
    lemma_lines_no_newline(art, 0);
    let bodies = Seq::new(
        rows.len(),
        |i: int| seq![' ', ' '] + art_cell(padded, fs, w, i) + seq![' ', ' '] + field_cell(padded, fs, i),
    );
    assert forall|k: int| 0 <= k < bodies.len() implies #[trigger] bodies[k].len() > 0 && no_newline(
        bodies[k],
    ) by {
        let a = art_cell(padded, fs, w, k);
        let f = field_cell(padded, fs, k);
        assert(no_newline(a)) by {
            let c = cell(padded, art_shift(padded.len(), fs.len()), k);
            if c is Some {
                let m = k - art_shift(padded.len(), fs.len());
                assert(no_newline(lines[m]));
                assert forall|x: int| 0 <= x < a.len() implies #[trigger] a[x] != '\n' by {
                    if x < lines[m].len() {
                        assert(a[x] == lines[m][x]);
                    }
                }
            }
        }
        assert(no_newline(f)) by {
            let c = cell(fs, field_shift(padded.len(), fs.len()), k);
            if c is Some {
                assert(no_newline(fs[k - field_shift(padded.len(), fs.len())]));
            }
        }
        let b = bodies[k];
        assert forall|x: int| 0 <= x < b.len() implies #[trigger] b[x] != '\n' by {
            if 2 <= x < 2 + a.len() {
                assert(b[x] == a[x - 2]);
            } else if 4 + a.len() <= x {
                assert(b[x] == f[x - 4 - a.len()]);
            }
        }
    }
    assert forall|k: int| 0 <= k < rows.len() implies #[trigger] rows[k] == bodies[k].push('\n') by {
        assert(rows[k] =~= bodies[k].push('\n'));
    }
    assert(bodies.map_values(|b: Seq<char>| b.push('\n')) =~= rows);
    lemma_concat_lines(bodies);
}

/// Blocks of equal height start on the same row: neither moves.
pub proof fn lemma_equal_heights_start_together(art: Seq<Seq<char>>, fields: Seq<Seq<char>>, w: nat)
    requires
        art.len() == fields.len(),
    ensures
        wait(art.len(), fields.len()) == 0,
        art_shift(art.len(), fields.len()) == 0,
        field_shift(art.len(), fields.len()) == 0,
        forall|i: int|
            0 <= i < art.len() ==> #[trigger] art_cell(art, fields, w, i) == art[i] && field_cell(
                art,
                fields,
                i,
            ) == fields[i],
{
}

/// `a + b`, or the largest `usize` where the sum is larger.
pub open spec fn sat_add(a: nat, b: nat) -> nat {
    if a + b > usize::MAX {
        usize::MAX as nat
    } else {
        a + b
    }
}

/// The views of resolved modules.
pub open spec fn rviews(v: Seq<ResolvedModule>) -> Seq<ResolvedView> {
    v.map_values(|r: ResolvedModule| r@)
}

/// The natural width of a module line: label and value together.
pub open spec fn line_width(r: ResolvedView) -> nat {
    sat_add(r.label.len(), r.value.len())
}

/// The widest natural module line, or zero.
pub open spec fn longest(rs: Seq<ResolvedView>) -> nat
    decreases rs.len(),
{
    if rs.len() == 0 {
        0
    } else {
        let m = longest(rs.drop_last());
        if line_width(rs.last()) > m {
            line_width(rs.last())
        } else {
            m
        }
    }
}

/// The value a module line shows: a separator's declared character repeated
/// to the width `longest`, any other module's value as it is.
pub open spec fn shown_value(r: ResolvedView, longest: nat) -> Seq<char> {
    if r.kind == "separator"@ && r.separator_char is Some {
        repeat(r.separator_char->Some_0, longest)
    } else {
        r.value
    }
}

/// The width the value is padded to, after a label of `label_len` and a
/// separator of `sep_len` characters: what is left of the fixed `gap`, or
/// else of the widest line, never below zero.
pub open spec fn pad_width(label_len: nat, sep_len: nat, longest: nat, gap: Option<usize>) -> nat {
    match gap {
        Some(g) => sub_or_zero(g as nat, sat_add(label_len, sep_len)),
        None => sub_or_zero(longest, label_len),
    }
}

/// The displayed line of a module: label, separator and padded value, or
/// the bare value where the label is empty.
pub open spec fn field_line(r: ResolvedView, longest: nat, sep: Seq<char>, gap: Option<usize>) -> Seq<
    char,
> {
    let v = shown_value(r, longest);
    if r.label.len() == 0 {
        v
    } else {
        r.label + sep + pad_right(v, pad_width(r.label.len(), sep.len(), longest, gap))
    }
}

/// The first module at or after `i` whose name is `name`.
pub open spec fn find_named(rs: Seq<ResolvedView>, name: Seq<char>, i: int) -> Option<ResolvedView>
    decreases rs.len() - i,
{
    if i < 0 || i >= rs.len() {
        None
    } else if rs[i].name == name {
        Some(rs[i])
    } else {
        find_named(rs, name, i + 1)
    }
}

/// The lines of the modules named in `order`, or the first name that no
/// module has.
pub open spec fn field_lines(
    order: Seq<Seq<char>>,
    rs: Seq<ResolvedView>,
    sep: Seq<char>,
    gap: Option<usize>,
) -> Result<Seq<Seq<char>>, Fault>
    decreases order.len(),
{
    if order.len() == 0 {
        Ok(Seq::empty())
    } else {
        match field_lines(order.drop_last(), rs, sep, gap) {
            Err(e) => Err(e),
            Ok(ls) => match find_named(rs, order.last(), 0) {
                None => Err(Fault::UndefinedModule(order.last())),
                Some(r) => Ok(ls.push(field_line(r, longest(rs), sep, gap))),
            },
        }
    }
}

/// The string between a label and its value: the configured one, or `:`.
pub open spec fn separator_text(tf: DisplayTextField) -> Seq<char> {
    match tf.separator {
        Some(s) => s@,
        None => seq![':'],
    }
}

/// The whole output for `art` and the modules `rs` shown in `order`.
pub open spec fn composed(
    art: Seq<char>,
    order: Seq<Seq<char>>,
    rs: Seq<ResolvedView>,
    tf: DisplayTextField,
) -> Result<Seq<char>, Fault> {
    let lines = art_rows(art);
    if lines.len() == 0 {
        Err(Fault::EmptyArt)
    } else if rs.len() == 0 {
        Err(Fault::NoModules)
    } else {
        match field_lines(order, rs, separator_text(tf), tf.gap) {
            Err(e) => Err(e),
            Ok(fs) => {
                let w = max_len(lines);
                Ok(concat_all(out_rows(pad_all(lines, w), fs, w)))
            },
        }
    }
}

/// The widest natural module line of `rs`, or zero.
pub fn longest_module(rs: &Vec<ResolvedModule>) -> (r: usize)
    ensures
        r == longest(rviews(rs@)),
{
    let ghost vs = rviews(rs@);
    let mut m: usize = 0;
    let mut i: usize = 0;
    assert(vs.subrange(0, 0) =~= Seq::<ResolvedView>::empty());
    while i < rs.len()
        invariant
            vs == rviews(rs@),
            i <= rs@.len(),
            m == longest(vs.subrange(0, i as int)),
        decreases rs@.len() - i,
    {
        assert(vs.subrange(0, i + 1).drop_last() =~= vs.subrange(0, i as int));
        let n = rs[i].label.as_str().unicode_len().saturating_add(rs[i].value.as_str().unicode_len());
        if n > m {
            m = n;
        }
        i = i + 1;
    }
    assert(vs.subrange(0, rs@.len() as int) =~= vs);
    m
}

/// The displayed line of module `r`, with `longest` the widest natural line.
pub fn field_line_of(r: &ResolvedModule, longest: usize, sep: &str, gap: Option<usize>) -> (s: String)
    ensures
        s@ == field_line(r@, longest as nat, sep@, gap),
{
    let shown = match r.separator_char {
        Some(c) if same_text(r.kind.as_str(), "separator") => repeat_char(c, longest),
        _ => r.value.clone(),
    };
    let label_len = r.label.as_str().unicode_len();
    if label_len == 0 {
        return shown;
    }
    let width = match gap {
        Some(g) => g.saturating_sub(label_len.saturating_add(sep.unicode_len())),
        None => longest.saturating_sub(label_len),
    };
    let mut line = r.label.clone();
    push_str(&mut line, sep);
    let padded = pad_right_string(shown.as_str(), width);
    push_str(&mut line, padded.as_str());
    line
}

/// Where the first module named `name` stands in `rs`.
pub fn find_module(rs: &Vec<ResolvedModule>, name: &str) -> (r: Option<usize>)
    ensures
        r matches Some(k) ==> k < rs@.len() && find_named(rviews(rs@), name@, 0) == Some(rs@[k as int]@),
        r is None ==> find_named(rviews(rs@), name@, 0) is None,
{
    let ghost vs = rviews(rs@);
    let mut i: usize = 0;
    while i < rs.len()
        invariant
            vs == rviews(rs@),
            i <= rs@.len(),
            find_named(vs, name@, 0) == find_named(vs, name@, i as int),
        decreases rs@.len() - i,
    {
        if same_text(rs[i].name.as_str(), name) {
            return Some(i);
        }
        i = i + 1;
    }
    None
}

/// The lines of the modules named in `order`, in that order.
pub fn module_lines(order: &Vec<String>, rs: &Vec<ResolvedModule>, tf: &DisplayTextField) -> (r: Result<
    Vec<String>,
    FetchError,
>)
    ensures
        match r {
            Ok(ls) => field_lines(views(order@), rviews(rs@), separator_text(*tf), tf.gap) == Ok::<
                Seq<Seq<char>>,
                Fault,
            >(views(ls@)),
            Err(e) => field_lines(views(order@), rviews(rs@), separator_text(*tf), tf.gap) == Err::<
                Seq<Seq<char>>,
                Fault,
            >(e@),
        },
{
    let ghost ov = views(order@);
    let ghost vs = rviews(rs@);
    let sep: String = match &tf.separator {
        Some(s) => s.clone(),
        None => {
            let mut c = String::new();
            push_char(&mut c, ':');
            c
        },
    };
    let l = longest_module(rs);
    let mut out: Vec<String> = Vec::new();
    let mut i: usize = 0;
    assert(ov.subrange(0, 0) =~= Seq::<Seq<char>>::empty());
    assert(views(out@) =~= Seq::<Seq<char>>::empty());
    while i < order.len()
        invariant
            ov == views(order@),
            vs == rviews(rs@),
            sep@ == separator_text(*tf),
            l == longest(vs),
            i <= order@.len(),
            field_lines(ov.subrange(0, i as int), vs, sep@, tf.gap) == Ok::<Seq<Seq<char>>, Fault>(
                views(out@),
            ),
        decreases order@.len() - i,
    {
        assert(ov.subrange(0, i + 1).drop_last() =~= ov.subrange(0, i as int));
        assert(ov.subrange(0, i + 1).last() == order@[i as int]@);
        match find_module(rs, order[i].as_str()) {
            None => {
                proof {
                    lemma_field_lines_stop(ov, vs, sep@, tf.gap, i as int + 1);
                }
                return Err(FetchError::UndefinedModule(order[i].clone()));
            },
            Some(k) => {
                let ghost before = views(out@);
                out.push(field_line_of(&rs[k], l, sep.as_str(), tf.gap));
                assert(views(out@) =~= before.push(field_line(rs@[k as int]@, l as nat, sep@, tf.gap)));
            },
        }
        i = i + 1;
    }
    assert(ov.subrange(0, order@.len() as int) =~= ov);
    Ok(out)
}

/// Once a prefix of the order fails, the whole order fails the same way.
proof fn lemma_field_lines_stop(
    order: Seq<Seq<char>>,
    rs: Seq<ResolvedView>,
    sep: Seq<char>,
    gap: Option<usize>,
    n: int,
)
    requires
        0 < n <= order.len(),
        field_lines(order.subrange(0, n), rs, sep, gap) is Err,
    ensures
        field_lines(order, rs, sep, gap) == field_lines(order.subrange(0, n), rs, sep, gap),
    decreases order.len() - n,
{
    if n < order.len() {
        assert(order.subrange(0, n + 1).drop_last() =~= order.subrange(0, n));
        lemma_field_lines_stop(order, rs, sep, gap, n + 1);
    } else {
        assert(order.subrange(0, n) =~= order);
    }
}

/// Sets the art block `art` beside the lines of the modules named in
/// `order`, looked up among the resolved modules `resolved`.
pub fn compose(art: &str, order: &Vec<String>, resolved: &Vec<ResolvedModule>, display: &Display) -> (r: Result<
    String,
    FetchError,
>)
    ensures
        text_result(r) == composed(art@, views(order@), rviews(resolved@), display.textfield),
{
    let lines = split_art(art);
    if lines.len() == 0 {
        return Err(FetchError::EmptyArt);
    }
    if resolved.len() == 0 {
        return Err(FetchError::NoModules);
    }
    let fields = match module_lines(order, resolved, &display.textfield) {
        Ok(fs) => fs,
        Err(e) => {
            return Err(e);
        },
    };
    let w = widest(&lines);
    let padded = pad_lines(&lines, w);
    Ok(merge_columns(&padded, w, &fields))
}

/// Where the first module at or after `i` named `name` stands, or the number
/// of modules.
pub open spec fn name_pos(rs: Seq<ResolvedView>, name: Seq<char>, i: int) -> int
    decreases rs.len() - i,
{
    if i < 0 || i >= rs.len() {
        rs.len() as int
    } else if rs[i].name == name {
        i
    } else {
        name_pos(rs, name, i + 1)
    }
}

/// No name stands twice among the modules.
pub open spec fn names_distinct(rs: Seq<ResolvedView>) -> bool {
    forall|a: int, b: int| 0 <= a < b < rs.len() ==> #[trigger] rs[a].name != #[trigger] rs[b].name
}

proof fn lemma_name_pos(rs: Seq<ResolvedView>, name: Seq<char>, i: int)
    requires
        0 <= i <= rs.len(),
    ensures
        i <= name_pos(rs, name, i) <= rs.len(),
        name_pos(rs, name, i) < rs.len() ==> rs[name_pos(rs, name, i)].name == name,
        forall|j: int| i <= j < name_pos(rs, name, i) ==> #[trigger] rs[j].name != name,
    decreases rs.len() - i,
{
    if i < rs.len() && rs[i].name != name {
        lemma_name_pos(rs, name, i + 1);
    }
}

/// Replacing or adding a module by name keeps the names distinct.
pub proof fn lemma_upsert_distinct(rs: Seq<ResolvedView>, r: ResolvedView)
    requires
        names_distinct(rs),
    ensures
        names_distinct(upsert(rs, r)),
{
    lemma_name_pos(rs, r.name, 0);
    let p = name_pos(rs, r.name, 0);
    let u = upsert(rs, r);
    assert forall|a: int, b: int| 0 <= a < b < u.len() implies #[trigger] u[a].name != #[trigger] u[b].name by {
        if p < rs.len() {
            if a == p || b == p {
                assert(rs[a].name != rs[b].name);
            }
        } else if b == rs.len() {
            assert(rs[a].name != r.name);
        }
    }
}

/// `rs` with `r` in place of the module of the same name, or with `r` added
/// at the end where there is none: a later definition of a name replaces an
/// earlier one.
pub open spec fn upsert(rs: Seq<ResolvedView>, r: ResolvedView) -> Seq<ResolvedView> {
    let p = name_pos(rs, r.name, 0);
    if p < rs.len() {
        rs.update(p, r)
    } else {
        rs.push(r)
    }
}

/// What the command of definition `i` printed, if it was run.
pub open spec fn output_at(outs: Seq<Option<String>>, i: int) -> Option<Seq<char>> {
    if 0 <= i < outs.len() {
        opt_text(outs[i])
    } else {
        None
    }
}

/// The first `n` definitions resolved in order, or the first fault.
pub open spec fn resolve_prefix(info: OsInfo, defs: Seq<Module>, outs: Seq<Option<String>>, n: nat) -> Result<
    Seq<ResolvedView>,
    Fault,
>
    decreases n,
{
    if n == 0 {
        Ok(Seq::empty())
    } else {
        match resolve_prefix(info, defs, outs, (n - 1) as nat) {
            Err(e) => Err(e),
            Ok(rs) => match resolve_view(info, defs[n - 1], output_at(outs, n - 1)) {
                Err(e) => Err(e),
                Ok(r) => Ok(upsert(rs, r)),
            },
        }
    }
}

/// All definitions resolved, one module per name, or the first fault.
pub open spec fn resolve_all(info: OsInfo, defs: Seq<Module>, outs: Seq<Option<String>>) -> Result<
    Seq<ResolvedView>,
    Fault,
> {
    resolve_prefix(info, defs, outs, defs.len())
}

/// The whole render: the art is checked first, then every definition is
/// resolved, then the two blocks are composed.
pub open spec fn rendered(
    art: Seq<char>,
    info: OsInfo,
    modules: Modules,
    display: Display,
    outs: Seq<Option<String>>,
) -> Result<Seq<char>, Fault> {
    if art_rows(art).len() == 0 {
        Err(Fault::EmptyArt)
    } else {
        match resolve_all(info, modules.definitions@, outs) {
            Err(e) => Err(e),
            Ok(rs) => composed(art, views(modules.modules@), rs, display.textfield),
        }
    }
}

/// Where the first module named `name` stands in `rs`, or its length.
fn position_named(rs: &Vec<ResolvedModule>, name: &str) -> (r: usize)
    ensures
        r == name_pos(rviews(rs@), name@, 0),
{
    let ghost vs = rviews(rs@);
    let mut i: usize = 0;
    while i < rs.len()
        invariant
            vs == rviews(rs@),
            i <= rs@.len(),
            name_pos(vs, name@, 0) == name_pos(vs, name@, i as int),
        decreases rs@.len() - i,
    {
        if same_text(rs[i].name.as_str(), name) {
            return i;
        }
        i = i + 1;
    }
    i
}

/// Puts `r` in place of the module of the same name, or adds it.
pub fn upsert_module(rs: &mut Vec<ResolvedModule>, r: ResolvedModule)
    ensures
        rviews(final(rs)@) == upsert(rviews(old(rs)@), r@),
{
    let p = position_named(rs, r.name.as_str());
    let ghost rv = r@;
    if p < rs.len() {
        rs.set(p, r);
        assert(rviews(rs@) =~= rviews(old(rs)@).update(p as int, rv));
    } else {
        rs.push(r);
        assert(rviews(rs@) =~= rviews(old(rs)@).push(rv));
    }
}

/// Resolves every definition in order, a later definition of a name
/// replacing an earlier one. `command_outputs[i]` is what the command of
/// definition `i` printed, where it was run.
pub fn resolve_modules(info: &OsInfo, defs: &Vec<Module>, command_outputs: &Vec<Option<String>>) -> (r: Result<
    Vec<ResolvedModule>,
    FetchError,
>)
    ensures
        match r {
            Ok(rs) => resolve_all(*info, defs@, command_outputs@) == Ok::<Seq<ResolvedView>, Fault>(
                rviews(rs@),
            ) && names_distinct(rviews(rs@)),
            Err(e) => resolve_all(*info, defs@, command_outputs@) == Err::<Seq<ResolvedView>, Fault>(
                e@,
            ),
        },
{
    let mut rs: Vec<ResolvedModule> = Vec::new();
    let mut i: usize = 0;
    assert(rviews(rs@) =~= Seq::<ResolvedView>::empty());
    while i < defs.len()
        invariant
            i <= defs@.len(),
            resolve_prefix(*info, defs@, command_outputs@, i as nat) == Ok::<Seq<ResolvedView>, Fault>(
                rviews(rs@),
            ),
            names_distinct(rviews(rs@)),
        decreases defs@.len() - i,
    {
        let out: Option<String> = if i < command_outputs.len() {
            match &command_outputs[i] {
                Some(o) => Some(o.clone()),
                None => None,
            }
        } else {
            None
        };
        assert(opt_text(out) == output_at(command_outputs@, i as int));
        match Config::parse_module(info, &defs[i], out) {
            Ok(m) => {
                proof {
                    lemma_upsert_distinct(rviews(rs@), m@);
                }
                upsert_module(&mut rs, m);
            },
            Err(e) => {
                proof {
                    lemma_resolve_stops(*info, defs@, command_outputs@, i as nat + 1);
                }
                return Err(e);
            },
        }
        i = i + 1;
    }
    Ok(rs)
}

/// Once a prefix of the definitions fails, all of them fail the same way.
proof fn lemma_resolve_stops(info: OsInfo, defs: Seq<Module>, outs: Seq<Option<String>>, n: nat)
    requires
        n <= defs.len(),
        resolve_prefix(info, defs, outs, n) is Err,
    ensures
        resolve_all(info, defs, outs) == resolve_prefix(info, defs, outs, n),
    decreases defs.len() - n,
{
    if n < defs.len() {
        lemma_resolve_stops(info, defs, outs, n + 1);
    }
}

/// Resolves the module definitions on host `info` and sets their lines, in
/// the configured order, beside the art block. `command_outputs[i]` is what
/// the command of definition `i` printed, where it was run.
pub fn create_output(
    art: String,
    info: OsInfo,
    modules: Modules,
    display: Display,
    command_outputs: Vec<Option<String>>,
) -> (r: Result<String, FetchError>)
    ensures
        text_result(r) == rendered(art@, info, modules, display, command_outputs@),
{
    let lines = split_art(art.as_str());
    if lines.len() == 0 {
        return Err(FetchError::EmptyArt);
    }
    let resolved = match resolve_modules(&info, &modules.definitions, &command_outputs) {
        Ok(rs) => rs,
        Err(e) => {
            return Err(e);
        },
    };
    compose(art.as_str(), &modules.modules, &resolved, &display)
}

/// A `separator` module without key shows nothing but its declared
/// character, repeated to the width of the widest module line, whatever its
/// format.
pub proof fn lemma_separator_fill(
    info: OsInfo,
    m: Module,
    output: Option<Seq<char>>,
    rs: Seq<ResolvedView>,
    sep: Seq<char>,
    gap: Option<usize>,
)
    requires
        m.module_type@ == "separator"@,
        m.key is None,
        resolve_view(info, m, output) is Ok,
    ensures
        m.separator_char is Some,
        field_line(resolve_view(info, m, output)->Ok_0, longest(rs), sep, gap) == repeat(
            m.separator_char->Some_0,
            longest(rs),
        ),
        field_line(resolve_view(info, m, output)->Ok_0, longest(rs), sep, gap).len() == longest(rs),
        forall|i: int|
            0 <= i < longest(rs) ==> #[trigger] field_line(
                resolve_view(info, m, output)->Ok_0,
                longest(rs),
                sep,
                gap,
            )[i] == m.separator_char->Some_0,
{
    lemma_type_names_distinct();
    assert(label_text(m) =~= Seq::<char>::empty());
}
/// The module found under a name is one of the modules, with that name.
proof fn lemma_find_named_in(rs: Seq<ResolvedView>, name: Seq<char>, i: int)
    requires
        0 <= i,
    ensures
        find_named(rs, name, i) is Some ==> find_named(rs, name, i)->Some_0.name == name && exists|
            j: int,
        |
            0 <= j < rs.len() && #[trigger] rs[j] == find_named(rs, name, i)->Some_0,
    decreases rs.len() - i,
{
    if i < rs.len() {
        if rs[i].name != name {
            lemma_find_named_in(rs, name, i + 1);
        }
    }
}

/// Each module line is the line of the module found under its name.
proof fn lemma_field_lines_entries(
    order: Seq<Seq<char>>,
    rs: Seq<ResolvedView>,
    sep: Seq<char>,
    gap: Option<usize>,
)
    requires
        field_lines(order, rs, sep, gap) is Ok,
    ensures
        field_lines(order, rs, sep, gap)->Ok_0.len() == order.len(),
        forall|k: int|
            0 <= k < order.len() ==> find_named(rs, #[trigger] order[k], 0) is Some && field_lines(
                order,
                rs,
                sep,
                gap,
            )->Ok_0[k] == field_line(find_named(rs, order[k], 0)->Some_0, longest(rs), sep, gap),
    decreases order.len(),
{
    if order.len() > 0 {
        let init = order.drop_last();
        lemma_field_lines_entries(init, rs, sep, gap);
        assert forall|k: int| 0 <= k < order.len() implies find_named(rs, #[trigger] order[k], 0) is Some
            && field_lines(order, rs, sep, gap)->Ok_0[k] == field_line(
            find_named(rs, order[k], 0)->Some_0,
            longest(rs),
            sep,
            gap,
        ) by {
            if k < init.len() {
                assert(init[k] == order[k]);
            }
        }
    }
}

/// No module is wider than the widest, and one is that wide.
pub proof fn lemma_longest_max(rs: Seq<ResolvedView>)
    ensures
        forall|j: int| 0 <= j < rs.len() ==> #[trigger] line_width(rs[j]) <= longest(rs),
        rs.len() > 0 ==> exists|j: int| 0 <= j < rs.len() && #[trigger] line_width(rs[j]) == longest(rs),
    decreases rs.len(),
{
    if rs.len() > 0 {
        let init = rs.drop_last();
        lemma_longest_max(init);
        assert forall|j: int| 0 <= j < rs.len() implies #[trigger] line_width(rs[j]) <= longest(rs) by {
            if j < init.len() {
                assert(rs[j] == init[j]);
            }
        }
        if line_width(rs.last()) <= longest(init) && init.len() > 0 {
            let k = choose|k: int| 0 <= k < init.len() && #[trigger] line_width(init[k]) == longest(init);
            assert(rs[k] == init[k]);
        }
    }
}

/// Every resolved module is the resolution of a definition of its name.
proof fn lemma_resolved_from_defs(info: OsInfo, defs: Seq<Module>, outs: Seq<Option<String>>, n: nat)
    requires
        n <= defs.len(),
        resolve_prefix(info, defs, outs, n) is Ok,
    ensures
        forall|j: int|
            0 <= j < resolve_prefix(info, defs, outs, n)->Ok_0.len() ==> exists|d: int|
                0 <= d < n && defs[d].name@ == (#[trigger] resolve_prefix(info, defs, outs, n)->Ok_0[j]).name
                    && resolve_view(info, defs[d], output_at(outs, d)) == Ok::<ResolvedView, Fault>(
                    resolve_prefix(info, defs, outs, n)->Ok_0[j],
                ),
    decreases n,
{
    if n > 0 {
        let m = (n - 1) as nat;
        lemma_resolved_from_defs(info, defs, outs, m);
        let rs = resolve_prefix(info, defs, outs, m)->Ok_0;
        let r = resolve_view(info, defs[n - 1], output_at(outs, n - 1))->Ok_0;
        let u = resolve_prefix(info, defs, outs, n)->Ok_0;
        assert(u == upsert(rs, r));
        lemma_name_pos(rs, r.name, 0);
        assert forall|j: int| 0 <= j < u.len() implies exists|d: int|
            0 <= d < n && defs[d].name@ == (#[trigger] u[j]).name && resolve_view(
                info,
                defs[d],
                output_at(outs, d),
            ) == Ok::<ResolvedView, Fault>(u[j]) by {
            let p = name_pos(rs, r.name, 0);
            if (p < rs.len() && j == p) || (p == rs.len() && j == rs.len()) {
                assert(u[j] == r);
                assert(defs[n - 1].name@ == r.name);
            } else {
                assert(u[j] == rs[j]);
                let d = choose|d: int|
                    0 <= d < m && defs[d].name@ == (#[trigger] rs[j]).name && resolve_view(
                        info,
                        defs[d],
                        output_at(outs, d),
                    ) == Ok::<ResolvedView, Fault>(rs[j]);
                assert(0 <= d < n);
            }
        }
    }
}

/// Whether no resolved label, value or separator character, and not the
/// string between labels and values, holds a line feed.
pub open spec fn single_line(rs: Seq<ResolvedView>, tf: DisplayTextField) -> bool {
    &&& no_newline(separator_text(tf))
    &&& forall|j: int|
        0 <= j < rs.len() ==> no_newline(#[trigger] rs[j].label) && no_newline(rs[j].value)
            && rs[j].separator_char != Some('\n')
}

proof fn lemma_no_newline_concat(a: Seq<char>, b: Seq<char>)
    requires
        no_newline(a),
        no_newline(b),
    ensures
        no_newline(a + b),
{
    assert forall|k: int| 0 <= k < (a + b).len() implies #[trigger] (a + b)[k] != '\n' by {
        if k >= a.len() {
            assert((a + b)[k] == b[k - a.len()]);
        }
    }
}

proof fn lemma_field_line_single(r: ResolvedView, l: nat, sep: Seq<char>, gap: Option<usize>)
    requires
        no_newline(r.label),
        no_newline(r.value),
        r.separator_char != Some('\n'),
        no_newline(sep),
    ensures
        no_newline(field_line(r, l, sep, gap)),
{
    let v = shown_value(r, l);
    assert(no_newline(v));
    let w = pad_width(r.label.len(), sep.len(), l, gap);
    if v.len() < w {
        lemma_no_newline_concat(v, repeat(' ', (w - v.len()) as nat));
    }
    lemma_no_newline_concat(r.label, sep);
    lemma_no_newline_concat(r.label + sep, pad_right(v, w));
}

/// The text that `create_output` returns splits, at its line feeds, into
/// one line per line of the taller block (art or displayed modules); each
/// line is two spaces, the art column as wide as the widest art line (an
/// art line padded with spaces, or spaces only), two spaces and the module
/// column. This holds where no label, value or separator holds a line feed.
pub proof fn lemma_rendered_lines(
    art: Seq<char>,
    info: OsInfo,
    modules: Modules,
    display: Display,
    outs: Seq<Option<String>>,
)
    requires
        rendered(art, info, modules, display, outs) is Ok,
        single_line(resolve_all(info, modules.definitions@, outs)->Ok_0, display.textfield),
    ensures
        ({
            let out = rendered(art, info, modules, display, outs)->Ok_0;
            let rs = resolve_all(info, modules.definitions@, outs)->Ok_0;
            let tf = display.textfield;
            let lines = art_rows(art);
            let fs = field_lines(views(modules.modules@), rs, separator_text(tf), tf.gap)->Ok_0;
            let w = max_len(lines);
            let padded = pad_all(lines, w);
            &&& lines_from(out, 0).len() == if lines.len() > modules.modules@.len() {
                lines.len()
            } else {
                modules.modules@.len()
            }
            &&& forall|i: int|
                0 <= i < lines_from(out, 0).len() ==> {
                    &&& #[trigger] art_cell(padded, fs, w, i).len() == w
                    &&& lines_from(out, 0)[i] == seq![' ', ' '] + art_cell(padded, fs, w, i) + seq![
                        ' ',
                        ' ',
                    ] + field_cell(padded, fs, i)
                }
        }),
{
    let rs = resolve_all(info, modules.definitions@, outs)->Ok_0;
    let tf = display.textfield;
    let order = views(modules.modules@);
    let sep = separator_text(tf);
    let fs = field_lines(order, rs, sep, tf.gap)->Ok_0;
    lemma_field_lines_entries(order, rs, sep, tf.gap);
    assert forall|k: int| 0 <= k < fs.len() implies no_newline(#[trigger] fs[k]) by {
        lemma_find_named_in(rs, order[k], 0);
        let r = find_named(rs, order[k], 0)->Some_0;
        let j = choose|j: int| 0 <= j < rs.len() && #[trigger] rs[j] == r;
        assert(no_newline(rs[j].label));
        lemma_field_line_single(r, longest(rs), sep, tf.gap);
    }
    lemma_composed_lines(art, order, rs, tf);
}

/// Where the art has as many lines as there are modules to display, both
/// blocks start on the first row: row `i` is two spaces, art line `i`
/// padded to the widest art line, two spaces, module line `i` and a line
/// feed.
pub proof fn lemma_rendered_equal_heights(
    art: Seq<char>,
    info: OsInfo,
    modules: Modules,
    display: Display,
    outs: Seq<Option<String>>,
)
    requires
        rendered(art, info, modules, display, outs) is Ok,
        art_rows(art).len() == modules.modules@.len(),
    ensures
        ({
            let rs = resolve_all(info, modules.definitions@, outs)->Ok_0;
            let tf = display.textfield;
            let lines = art_rows(art);
            let fs = field_lines(views(modules.modules@), rs, separator_text(tf), tf.gap)->Ok_0;
            let w = max_len(lines);
            &&& fs.len() == lines.len()
            &&& rendered(art, info, modules, display, outs)->Ok_0 == concat_all(
                Seq::new(
                    lines.len(),
                    |i: int|
                        seq![' ', ' '] + pad_right(lines[i], w) + seq![' ', ' '] + fs[i] + seq!['\n'],
                ),
            )
        }),
{
    let rs = resolve_all(info, modules.definitions@, outs)->Ok_0;
    let tf = display.textfield;
    let lines = art_rows(art);
    let order = views(modules.modules@);
    let fs = field_lines(order, rs, separator_text(tf), tf.gap)->Ok_0;
    let w = max_len(lines);
    let padded = pad_all(lines, w);
    lemma_field_lines_entries(order, rs, separator_text(tf), tf.gap);
    lemma_equal_heights_start_together(padded, fs, w);
    let want = Seq::new(
        lines.len(),
        |i: int| seq![' ', ' '] + pad_right(lines[i], w) + seq![' ', ' '] + fs[i] + seq!['\n'],
    );
    assert(out_rows(padded, fs, w) =~= want);
}

/// Where every definition of a displayed name is a `separator` without key
/// declaring `c`, that name's module line, and the module column of the row
/// showing it, is `c` repeated to the width of the widest resolved module
/// (label and value together, over all definitions, displayed or not).
pub proof fn lemma_rendered_separator(
    art: Seq<char>,
    info: OsInfo,
    modules: Modules,
    display: Display,
    outs: Seq<Option<String>>,
    k: int,
    c: char,
)
    requires
        rendered(art, info, modules, display, outs) is Ok,
        0 <= k < modules.modules@.len(),
        forall|d: int|
            0 <= d < modules.definitions@.len() && (#[trigger] modules.definitions@[d]).name@
                == modules.modules@[k]@ ==> modules.definitions@[d].module_type@ == "separator"@
                && modules.definitions@[d].key is None && modules.definitions@[d].separator_char
                == Some(c),
    ensures
        ({
            let rs = resolve_all(info, modules.definitions@, outs)->Ok_0;
            let tf = display.textfield;
            let lines = art_rows(art);
            let fs = field_lines(views(modules.modules@), rs, separator_text(tf), tf.gap)->Ok_0;
            let w = max_len(lines);
            &&& fs[k] == repeat(c, longest(rs))
            &&& field_cell(pad_all(lines, w), fs, k + field_shift(lines.len(), fs.len())) == repeat(
                c,
                longest(rs),
            )
            &&& forall|j: int| 0 <= j < rs.len() ==> #[trigger] line_width(rs[j]) <= longest(rs)
            &&& rs.len() > 0 ==> exists|j: int|
                0 <= j < rs.len() && #[trigger] line_width(rs[j]) == longest(rs)
        }),
{
    let defs = modules.definitions@;
    let rs = resolve_all(info, defs, outs)->Ok_0;
    let tf = display.textfield;
    let order = views(modules.modules@);
    let sep = separator_text(tf);
    lemma_field_lines_entries(order, rs, sep, tf.gap);
    lemma_find_named_in(rs, order[k], 0);
    lemma_resolved_from_defs(info, defs, outs, defs.len());
    lemma_longest_max(rs);
    let r = find_named(rs, order[k], 0)->Some_0;
    let j = choose|j: int| 0 <= j < rs.len() && #[trigger] rs[j] == r;
    let d = choose|d: int|
        0 <= d < defs.len() && defs[d].name@ == (#[trigger] rs[j]).name && resolve_view(
            info,
            defs[d],
            output_at(outs, d),
        ) == Ok::<ResolvedView, Fault>(rs[j]);
    assert(order[k] == modules.modules@[k]@);
    assert(defs[d].name@ == modules.modules@[k]@);
    assert(label_text(defs[d]) =~= Seq::<char>::empty());
}

} // verus!
