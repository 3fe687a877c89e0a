//! Facts about the running host, as the resolver reads them.
use vstd::prelude::*;
use crate::template::{lemma_next_at_bounds, next_at};
use crate::text::{chars_of, push_char, same_text};

verus! {

/// Key/value facts of the release descriptor (`PRETTY_NAME`, `VERSION_ID`,
/// `ID`, ...), in the order they were first seen. Each key stands at most
/// once when the entries are built through [`OsRelease::insert`].
#[derive(Debug, Clone)]
pub struct OsRelease {
    pub os_release: Vec<(String, String)>,
}

/// A read-only snapshot of the host.
#[derive(Debug, Clone)]
pub struct OsInfo {
    pub os_release_file_content: OsRelease,
    /// Operating-system identifier (`linux`, `macos`, ...).
    pub os_type: String,
    pub os_arch: String,
    pub shell: String,
    pub username: String,
    /// Kernel release.
    pub os_release: String,
    pub hostname: String,
}

/// The value of the first entry at or after `i` whose key is `key`.
pub open spec fn lookup_from(e: Seq<(String, String)>, key: Seq<char>, i: int) -> Option<Seq<char>>
    decreases e.len() - i,
{
    if i < 0 || i >= e.len() {
        None
    } else if e[i].0@ == key {
        Some(e[i].1@)
    } else {
        lookup_from(e, key, i + 1)
    }
}

/// Where the first entry at or after `i` whose key is `key` stands, or the
/// number of entries.
pub open spec fn position_from(e: Seq<(String, String)>, key: Seq<char>, i: int) -> int
    decreases e.len() - i,
{
    if i < 0 || i >= e.len() {
        e.len() as int
    } else if e[i].0@ == key {
        i
    } else {
        position_from(e, key, i + 1)
    }
}

proof fn lemma_position(e: Seq<(String, String)>, key: Seq<char>, i: int)
    requires
        0 <= i <= e.len(),
    ensures
        i <= position_from(e, key, i) <= e.len(),
        position_from(e, key, i) < e.len() ==> e[position_from(e, key, i)].0@ == key
            && lookup_from(e, key, i) == Some(e[position_from(e, key, i)].1@),
        position_from(e, key, i) == e.len() ==> lookup_from(e, key, i) is None,
        forall|j: int| i <= j < position_from(e, key, i) ==> #[trigger] e[j].0@ != key,
    decreases e.len() - i,
{
    if i < e.len() && e[i].0@ != key {
        lemma_position(e, key, i + 1);
    }
}

/// No key stands twice among the entries.
pub open spec fn keys_distinct(e: Seq<(String, String)>) -> bool {
    forall|a: int, b: int| 0 <= a < b < e.len() ==> #[trigger] e[a].0@ != #[trigger] e[b].0@
}

/// Changing or adding an entry whose key is not `k` leaves what `k` finds.
proof fn lemma_lookup_other(e: Seq<(String, String)>, f: Seq<(String, String)>, k: Seq<char>, i: int)
    requires
        0 <= i <= f.len(),
        e.len() <= f.len(),
        forall|j: int| 0 <= j < e.len() && e[j].0@ == k ==> f[j] == e[j],
        forall|j: int| 0 <= j < e.len() && e[j].0@ != k ==> f[j].0@ != k,
        forall|j: int| e.len() <= j < f.len() ==> f[j].0@ != k,
    ensures
        lookup_from(f, k, i) == lookup_from(e, k, i),
    decreases f.len() - i,
{
    if i < f.len() {
        lemma_lookup_other(e, f, k, i + 1);
    }
}

/// A line without its trailing carriage return, if it has one.
pub open spec fn strip_cr(l: Seq<char>) -> Seq<char> {
    if l.len() > 0 && l.last() == '\r' {
        l.drop_last()
    } else {
        l
    }
}

#[via_fn]
proof fn text_lines_decreases(s: Seq<char>, i: int) {
    if 0 <= i < s.len() {
        lemma_next_at_bounds(s, '\n', i);
    }
}

/// The lines of `s[i..]`: cut at each line feed, a final line feed ending
/// the last line. A carriage return just before a line feed belongs to the
/// line ending; one at the very end of the text stays in the last line.
pub open spec fn text_lines(s: Seq<char>, i: int) -> Seq<Seq<char>>
    decreases s.len() + 1 - i,
    via text_lines_decreases
{
    if i < 0 || i >= s.len() {
        Seq::empty()
    } else {
        let j = next_at(s, '\n', i);
        let piece = s.subrange(i, j);
        seq![
            if j < s.len() {
                strip_cr(piece)
            } else {
                piece
            },
        ] + text_lines(s, j + 1)
    }
}

/// `s` without its first `n` double quotes.
pub open spec fn unquote(s: Seq<char>, n: nat) -> Seq<char>
    decreases s.len(),
{
    if s.len() == 0 {
        s
    } else if s[0] == '"' && n > 0 {
        unquote(s.drop_first(), (n - 1) as nat)
    } else {
        seq![s[0]] + unquote(s.drop_first(), n)
    }
}

/// The entry a line of a release descriptor gives: the text before the
/// first `=` and the text after it, each without its first two double
/// quotes. A line without `=` gives none.
pub open spec fn line_entry(l: Seq<char>) -> Option<(Seq<char>, Seq<char>)> {
    let e = next_at(l, '=', 0);
    if e < l.len() {
        Some((unquote(l.subrange(0, e), 2), unquote(l.subrange(e + 1, l.len() as int), 2)))
    } else {
        None
    }
}

/// The value that the last of the first `n` lines to set `key` gives it.
pub open spec fn last_setting(lines: Seq<Seq<char>>, key: Seq<char>, n: int) -> Option<Seq<char>>
    decreases n,
{
    if n <= 0 || n > lines.len() {
        None
    } else {
        match line_entry(lines[n - 1]) {
            Some(kv) if kv.0 == key => Some(kv.1),
            _ => last_setting(lines, key, n - 1),
        }
    }
}

/// The value that the release descriptor `text` gives `key`: the last line
/// that sets it wins.
pub open spec fn release_value(text: Seq<char>, key: Seq<char>) -> Option<Seq<char>> {
    let lines = text_lines(text, 0);
    last_setting(lines, key, lines.len() as int)
}

/// `v[from..to]` without its first two double quotes.
fn unquote_range(v: &Vec<char>, from: usize, to: usize) -> (s: String)
    requires
        from <= to <= v@.len(),
    ensures
        s@ == unquote(v@.subrange(from as int, to as int), 2),
{
    let mut s = String::new();
    let mut left: usize = 2;
    let mut k: usize = from;
    while k < to
        invariant
            from <= k <= to <= v@.len(),
            left <= 2,
            s@ + unquote(v@.subrange(k as int, to as int), left as nat) == unquote(
                v@.subrange(from as int, to as int),
                2,
            ),
        decreases to - k,
    {
        let ghost rest = v@.subrange(k as int, to as int);
        assert(rest.drop_first() =~= v@.subrange(k + 1, to as int));
        if v[k] == '"' && left > 0 {
            left = left - 1;
        } else {
            let ghost before = s@;
            push_char(&mut s, v[k]);
            assert(before + unquote(rest, left as nat) =~= s@ + unquote(v@.subrange(k + 1, to as int), left as nat));
        }
        k = k + 1;
    }
    assert(unquote(v@.subrange(to as int, to as int), left as nat) =~= Seq::<char>::empty());
    assert(s@ + Seq::<char>::empty() =~= s@);
    s
}

impl OsRelease {
    /// Each key stands at most once.
    pub open spec fn wf(&self) -> bool {
        keys_distinct(self.os_release@)
    }

    /// The value stored under `key`, if any.
    pub open spec fn value_of(&self, key: Seq<char>) -> Option<Seq<char>> {
        lookup_from(self.os_release@, key, 0)
    }

    /// The facts of a release descriptor's text: one `KEY=value` per line
    /// (a line ends at a line feed or at `\r\n`), quotes taken off, the
    /// last line that sets a key winning; lines without `=` are passed over.
    pub fn new(text: &str) -> (r: OsRelease)
        ensures
            r.wf(),
            forall|k: Seq<char>| #[trigger] r.value_of(k) == release_value(text@, k),
    {
        let f = chars_of(text);
        let mut r = OsRelease { os_release: Vec::new() };
        let ghost lines = text_lines(f@, 0);
        let ghost mut n: int = 0;
        let mut i: usize = 0;
        while i < f.len()
            invariant
                f@ == text@,
                lines == text_lines(f@, 0),
                i <= f@.len(),
                0 <= n <= lines.len(),
                lines.subrange(n, lines.len() as int) == text_lines(f@, i as int),
                r.wf(),
                forall|k: Seq<char>| #[trigger] r.value_of(k) == last_setting(lines, k, n),
            decreases f@.len() - i,
        {
            proof {
                lemma_next_at_bounds(f@, '\n', i as int);
            }
            let mut j: usize = i;
            while j < f.len() && f[j] != '\n'
                invariant
                    i <= j <= f@.len(),
                    next_at(f@, '\n', i as int) == next_at(f@, '\n', j as int),
                decreases f@.len() - j,
            {
                j = j + 1;
            }
            let end: usize = if j < f.len() && j > i && f[j - 1] == '\r' {
                j - 1
            } else {
                j
            };
            let ghost line = f@.subrange(i as int, end as int);
            assert(line =~= (if j < f@.len() {
                strip_cr(f@.subrange(i as int, j as int))
            } else {
                f@.subrange(i as int, j as int)
            }));
            let ghost tail = text_lines(f@, i as int);
            assert(tail == seq![line] + text_lines(f@, j + 1));
            assert(n < lines.len()) by {
                assert(lines.subrange(n, lines.len() as int).len() == tail.len());
            }
            assert(lines[n] == line) by {
                assert(lines.subrange(n, lines.len() as int)[0] == lines[n]);
            }
            let mut e: usize = i;
            while e < end && f[e] != '='
                invariant
                    i <= e <= end <= f@.len(),
                    line == f@.subrange(i as int, end as int),
                    next_at(line, '=', 0) == next_at(line, '=', e - i),
                decreases end - e,
            {
                e = e + 1;
            }
            if e < end {
                let key = unquote_range(&f, i, e);
                let value = unquote_range(&f, e + 1, end);
                assert(line.subrange(0, e - i) =~= f@.subrange(i as int, e as int));
                assert(line.subrange(e - i + 1, line.len() as int) =~= f@.subrange(e + 1, end as int));
                r.insert(key, value);
            }
            proof {
                n = n + 1;
                assert(lines.subrange(n, lines.len() as int) =~= tail.drop_first());
                assert(tail.drop_first() =~= text_lines(f@, j + 1));
            }
            if j < f.len() {
                i = j + 1;
            } else {
                i = j;
                assert(text_lines(f@, j + 1) == text_lines(f@, i as int));
            }
        }
        proof {
            assert(lines.subrange(n, lines.len() as int).len() == 0);
        }
        r
    }

    /// An empty set of facts.
    pub fn empty() -> (r: OsRelease)
        ensures
            r.wf(),
            forall|k: Seq<char>| r.value_of(k) is None,
    {
        OsRelease { os_release: Vec::new() }
    }

    /// The value stored under `key`, if any.
    pub fn get(&self, key: &str) -> (r: Option<String>)
        ensures
            r matches Some(v) ==> self.value_of(key@) == Some(v@),
            r is None ==> self.value_of(key@) is None,
    {
        let mut i: usize = 0;
        while i < self.os_release.len()
            invariant
                i <= self.os_release@.len(),
                self.value_of(key@) == lookup_from(self.os_release@, key@, i as int),
            decreases self.os_release@.len() - i,
        {
            if same_text(self.os_release[i].0.as_str(), key) {
                return Some(self.os_release[i].1.clone());
            }
            i = i + 1;
        }
        None
    }

    /// Stores `value` under `key`, replacing what was stored there before.
    pub fn insert(&mut self, key: String, value: String)
        ensures
            final(self).value_of(key@) == Some(value@),
            forall|k: Seq<char>| k != key@ ==> #[trigger] final(self).value_of(k) == old(self).value_of(k),
            old(self).wf() ==> final(self).wf(),
    {
        let ghost e = self.os_release@;
        let ghost kv = key@;
        let i = self.position(key.as_str());
        proof {
            lemma_position(e, kv, 0);
        }
        if i < self.os_release.len() {
            self.os_release.set(i, (key, value));
        } else {
            self.os_release.push((key, value));
        }
        proof {
            let f = self.os_release@;
            assert forall|k: Seq<char>| k != kv implies #[trigger] lookup_from(f, k, 0) == lookup_from(e, k, 0) by {
                lemma_lookup_other(e, f, k, 0);
            }
            lemma_same_prefix(e, f, kv, 0, i as int);
            lemma_position(f, kv, 0);
            if keys_distinct(e) {
                assert forall|a: int, b: int| 0 <= a < b < f.len() implies #[trigger] f[a].0@ != #[trigger] f[b].0@ by {
                    if i < e.len() {
                        if a == i {
                            assert(e[a].0@ != e[b].0@);
                        } else if b == i {
                            assert(e[a].0@ != e[b].0@);
                        }
                    } else {
                        if b == e.len() {
                            assert(e[a].0@ != kv);
                        }
                    }
                }
            }
        }
    }

    /// Where the entry under `key` stands, or the number of entries.
    fn position(&self, key: &str) -> (r: usize)
        ensures
            r == position_from(self.os_release@, key@, 0),
    {
        let mut i: usize = 0;
        while i < self.os_release.len()
            invariant
                i <= self.os_release@.len(),
                position_from(self.os_release@, key@, 0) == position_from(self.os_release@, key@, i as int),
            decreases self.os_release@.len() - i,
        {
            if same_text(self.os_release[i].0.as_str(), key) {
                return i;
            }
            i = i + 1;
        }
        i
    }
}

proof fn lemma_same_prefix(e: Seq<(String, String)>, f: Seq<(String, String)>, k: Seq<char>, i: int, p: int)
    requires
        0 <= i <= p < f.len(),
        p <= e.len(),
        position_from(e, k, i) == p,
        forall|j: int| 0 <= j < p ==> f[j] == e[j],
        f[p].0@ == k,
    ensures
        position_from(f, k, i) == p,
    decreases p - i,
{
    if i < p {
        lemma_same_prefix(e, f, k, i + 1, p);
    }
}

} // verus!
