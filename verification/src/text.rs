//! Characters of a text: lines, trimming, comparison.

use vstd::prelude::*;

verus! {

/// `String::push`: the character is appended.
pub assume_specification[ String::push ](s: &mut String, c: char)
    ensures
        final(s)@ == old(s)@.push(c),
;

/// The characters of a text.
pub fn chars_of(text: &str) -> (v: Vec<char>)
    ensures
        v@ == text@,
{
    let mut v: Vec<char> = Vec::new();
    for c in it: text.chars()
        invariant
            v@ == it.seq().take(it.index() as int),
            it.seq() == text@,
    {
        v.push(c);
        assert(v@ =~= it.seq().take(it.index() + 1));
    }
    assert(v@ =~= text@);
    v
}

/// The text that `s[a..b]` spells.
pub fn string_of(s: &[char], a: usize, b: usize) -> (t: String)
    requires
        a <= b <= s@.len(),
    ensures
        t@ == s@.subrange(a as int, b as int),
{
    let mut t = String::new();
    let mut i: usize = a;
    assert(t@ =~= s@.subrange(a as int, a as int));
    while i < b
        invariant
            a <= i <= b,
            b <= s@.len(),
            t@ == s@.subrange(a as int, i as int),
        decreases b - i,
    {
        t.push(s[i]);
        i = i + 1;
        assert(t@ =~= s@.subrange(a as int, i as int));
    }
    t
}

/// A character that counts as white space.
pub open spec fn is_space(c: char) -> bool {
    let u = c as u32;
    ||| 0x9 <= u <= 0xd
    ||| u == 0x20
    ||| u == 0x85
    ||| u == 0xa0
    ||| u == 0x1680
    ||| 0x2000 <= u <= 0x200a
    ||| u == 0x2028
    ||| u == 0x2029
    ||| u == 0x202f
    ||| u == 0x205f
    ||| u == 0x3000
}

/// Whether a character counts as white space.
fn space(c: char) -> (b: bool)
    ensures
        b == is_space(c),
{
    let u = c as u32;
    (0x9 <= u && u <= 0xd) || u == 0x20 || u == 0x85 || u == 0xa0 || u == 0x1680 || (0x2000 <= u
        && u <= 0x200a) || u == 0x2028 || u == 0x2029 || u == 0x202f || u == 0x205f || u == 0x3000
}

/// A text without the white space at its start.
pub open spec fn trim_start(s: Seq<char>) -> Seq<char>
    decreases s.len(),
{
    if s.len() > 0 && is_space(s[0]) {
        trim_start(s.drop_first())
    } else {
        s
    }
}

/// A text without the white space at its end.
pub open spec fn trim_end(s: Seq<char>) -> Seq<char>
    decreases s.len(),
{
    if s.len() > 0 && is_space(s.last()) {
        trim_end(s.drop_last())
    } else {
        s
    }
}

/// A text without the white space at both ends.
pub open spec fn trimmed(s: Seq<char>) -> Seq<char> {
    trim_end(trim_start(s))
}

/// Where the text `s[a..b]` starts and ends without white space.
pub fn trim(s: &[char], a: usize, b: usize) -> (r: (usize, usize))
    requires
        a <= b <= s@.len(),
    ensures
        a <= r.0 <= r.1 <= b,
        s@.subrange(r.0 as int, r.1 as int) == trimmed(s@.subrange(a as int, b as int)),
{
    let ghost whole = s@.subrange(a as int, b as int);
    let mut i: usize = a;
    while i < b && space(s[i])
        invariant
            a <= i <= b,
            b <= s@.len(),
            trim_start(whole) == trim_start(s@.subrange(i as int, b as int)),
        decreases b - i,
    {
        assert(s@.subrange(i as int, b as int).drop_first() =~= s@.subrange(i + 1, b as int));
        i = i + 1;
    }
    let ghost front = s@.subrange(i as int, b as int);
    assert(trim_start(whole) == front);
    let mut j: usize = b;
    while j > i && space(s[j - 1])
        invariant
            i <= j <= b,
            b <= s@.len(),
            trim_end(front) == trim_end(s@.subrange(i as int, j as int)),
        decreases j,
    {
        assert(s@.subrange(i as int, j as int).drop_last() =~= s@.subrange(i as int, j - 1));
        j = j - 1;
    }
    assert(trim_end(front) == s@.subrange(i as int, j as int));
    (i, j)
}

/// Whether `s[a..b]` spells `name`.
pub fn spells(s: &[char], a: usize, b: usize, name: &str) -> (r: bool)
    requires
        a <= b <= s@.len(),
    ensures
        r == (s@.subrange(a as int, b as int) == name@),
{
    let n = chars_of(name);
    if n.len() != b - a {
        return false;
    }
    let mut i: usize = 0;
    while i < n.len()
        invariant
            i <= n@.len(),
            n@ == name@,
            n@.len() == b - a,
            a <= b <= s@.len(),
            forall|k: int| 0 <= k < i ==> s@[a + k] == n@[k],
        decreases n@.len() - i,
    {
        if s[a + i] != n[i] {
            assert(s@.subrange(a as int, b as int)[i as int] != name@[i as int]);
            return false;
        }
        i = i + 1;
    }
    assert(s@.subrange(a as int, b as int) =~= name@);
    true
}

/// Where the first line of `s` ends: at a line feed, or with the text.
pub open spec fn line_end(s: Seq<char>) -> int
    decreases s.len(),
{
    if s.len() == 0 || s[0] == '\n' {
        0
    } else {
        1 + line_end(s.drop_first())
    }
}

/// The lines of a text. A line feed at its end starts no further line.
pub open spec fn lines_of(s: Seq<char>) -> Seq<Seq<char>>
    decreases s.len(),
{
    if s.len() == 0 {
        Seq::empty()
    } else {
        let e = line_end(s);
        if 0 <= e < s.len() {
            seq![s.take(e)] + lines_of(s.skip(e + 1))
        } else {
            seq![s]
        }
    }
}

pub proof fn lemma_line_end(s: Seq<char>)
    ensures
        0 <= line_end(s) <= s.len(),
    decreases s.len(),
{
    if s.len() > 0 && s[0] != '\n' {
        lemma_line_end(s.drop_first());
    }
}

/// A text that is one line at most.
pub open spec fn one_line(s: Seq<char>) -> bool {
    forall|i: int| 0 <= i < s.len() ==> #[trigger] s[i] != '\n'
}

/// Nothing but white space.
pub open spec fn all_space(s: Seq<char>) -> bool {
    forall|i: int| 0 <= i < s.len() ==> is_space(#[trigger] s[i])
}

/// What follows `head` starts a line.
pub open spec fn at_line_start(head: Seq<char>) -> bool {
    head.len() == 0 || head.last() == '\n'
}

/// What stands before `tail` ends a line.
pub open spec fn at_line_end(tail: Seq<char>) -> bool {
    tail.len() == 0 || tail[0] == '\n'
}

/// A line ends where the text behind it starts another.
proof fn lemma_line_end_of(l: Seq<char>, tail: Seq<char>)
    requires
        one_line(l),
        at_line_end(tail),
    ensures
        line_end(l + tail) == l.len(),
    decreases l.len(),
{
    if l.len() == 0 {
        assert(l + tail =~= tail);
    } else {
        let rest = l.drop_first();
        assert forall|i: int| 0 <= i < rest.len() implies #[trigger] rest[i] != '\n' by {
            assert(l[i + 1] != '\n');
        }
        lemma_line_end_of(rest, tail);
        assert((l + tail).drop_first() =~= rest + tail);
        assert(l[0] != '\n');
        assert((l + tail)[0] == l[0]);
    }
}

/// The first line of a text that ends with a line feed ends before the text does, whatever
/// follows.
proof fn lemma_line_end_inside(head: Seq<char>, tail: Seq<char>)
    requires
        head.len() > 0,
        head.last() == '\n',
    ensures
        0 <= line_end(head) < head.len(),
        line_end(head + tail) == line_end(head),
    decreases head.len(),
{
    assert((head + tail)[0] == head[0]);
    if head[0] != '\n' {
        assert((head + tail).drop_first() =~= head.drop_first() + tail);
        lemma_line_end_inside(head.drop_first(), tail);
    }
}

/// The lines of two texts, where the second starts a line.
pub proof fn lemma_lines_join(head: Seq<char>, tail: Seq<char>)
    requires
        at_line_start(head),
    ensures
        lines_of(head + tail) == lines_of(head) + lines_of(tail),
    decreases head.len(),
{
    if head.len() == 0 {
        assert(head + tail =~= tail);
        assert(lines_of(head) + lines_of(tail) =~= lines_of(tail));
    } else {
        lemma_line_end_inside(head, tail);
        let e = line_end(head);
        let rest = head.skip(e + 1);
        assert((head + tail).take(e) =~= head.take(e));
        assert((head + tail).skip(e + 1) =~= rest + tail);
        if rest.len() > 0 {
            assert(rest.last() == head.last());
        }
        lemma_lines_join(rest, tail);
        assert(lines_of(head + tail) =~= lines_of(head) + lines_of(tail));
    }
}

/// The lines around a line: those before it, the line itself where it is not the empty end of
/// the text, and those behind it.
pub proof fn lemma_lines_around(head: Seq<char>, l: Seq<char>, tail: Seq<char>)
    requires
        at_line_start(head),
        one_line(l),
        at_line_end(tail),
    ensures
        lines_of(head + l + tail) == lines_of(head) + (if l.len() == 0 && tail.len() == 0 {
            Seq::empty()
        } else if tail.len() == 0 {
            seq![l]
        } else {
            seq![l] + lines_of(tail.skip(1))
        }),
{
    assert(head + l + tail =~= head + (l + tail));
    lemma_lines_join(head, l + tail);
    lemma_line_end_of(l, tail);
    if tail.len() > 0 {
        assert((l + tail).take(l.len() as int) =~= l);
        assert((l + tail).skip(l.len() as int + 1) =~= tail.skip(1));
    } else {
        assert(l + tail =~= l);
    }
}

proof fn lemma_trim_start_join(s: Seq<char>, b: Seq<char>)
    ensures
        trim_start(s + b) == (if trim_start(s).len() > 0 {
            trim_start(s) + b
        } else {
            trim_start(b)
        }),
    decreases s.len(),
{
    if s.len() == 0 {
        assert(s + b =~= b);
    } else {
        assert((s + b)[0] == s[0]);
        if is_space(s[0]) {
            assert((s + b).drop_first() =~= s.drop_first() + b);
            lemma_trim_start_join(s.drop_first(), b);
        }
    }
}

proof fn lemma_trim_start_space(s: Seq<char>)
    requires
        all_space(s),
    ensures
        trim_start(s).len() == 0,
    decreases s.len(),
{
    if s.len() > 0 {
        assert(is_space(s[0]));
        let rest = s.drop_first();
        assert forall|i: int| 0 <= i < rest.len() implies is_space(#[trigger] rest[i]) by {
            assert(is_space(s[i + 1]));
        }
        lemma_trim_start_space(rest);
    }
}

proof fn lemma_trim_end_space(s: Seq<char>, b: Seq<char>)
    requires
        all_space(b),
    ensures
        trim_end(s + b) == trim_end(s),
    decreases b.len(),
{
    if b.len() == 0 {
        assert(s + b =~= s);
    } else {
        assert(is_space(b[b.len() - 1]));
        assert((s + b).last() == b.last());
        let rest = b.drop_last();
        assert forall|i: int| 0 <= i < rest.len() implies is_space(#[trigger] rest[i]) by {
            assert(is_space(b[i]));
        }
        assert((s + b).drop_last() =~= s + rest);
        lemma_trim_end_space(s, rest);
    }
}

/// White space at the ends of a text is what trimming takes away.
pub proof fn lemma_trimmed_padding(before: Seq<char>, s: Seq<char>, after: Seq<char>)
    requires
        all_space(before),
        all_space(after),
    ensures
        trimmed(before + s + after) == trimmed(s),
{
    assert(before + s + after =~= before + (s + after));
    lemma_trim_start_space(before);
    lemma_trim_start_space(after);
    lemma_trim_start_join(before, s + after);
    lemma_trim_start_join(s, after);
    if trim_start(s).len() > 0 {
        lemma_trim_end_space(trim_start(s), after);
    } else {
        assert(trim_start(after) =~= trim_start(s));
    }
}

/// Where the line that starts at `a` ends.
pub fn end_of_line(s: &[char], a: usize) -> (e: usize)
    requires
        a <= s@.len(),
    ensures
        a <= e <= s@.len(),
        e == a + line_end(s@.skip(a as int)),
        e < s@.len() ==> s@[e as int] == '\n',
{
    let mut e: usize = a;
    while e < s.len() && s[e] != '\n'
        invariant
            a <= e <= s@.len(),
            a + line_end(s@.skip(a as int)) == e + line_end(s@.skip(e as int)),
        decreases s@.len() - e,
    {
        assert(s@.skip(e as int).drop_first() =~= s@.skip(e + 1));
        e = e + 1;
    }
    e
}

/// Trimming takes white space from both ends, all of it, and nothing else.
pub proof fn trimming_takes_white_space_alone(s: Seq<char>) -> (r: (int, int))
    ensures
        0 <= r.0 <= r.1 <= s.len(),
        trimmed(s) == s.subrange(r.0, r.1),
        forall|i: int| 0 <= i < r.0 || r.1 <= i < s.len() ==> is_space(#[trigger] s[i]),
        r.0 < r.1 ==> !is_space(s[r.0]) && !is_space(s[r.1 - 1]),
{
    let a = lemma_trim_start(s);
    let front = trim_start(s);
    let b = lemma_trim_end(front);
    assert(front.subrange(0, b) =~= s.subrange(a, a + b));
    assert forall|i: int| 0 <= i < a || a + b <= i < s.len() implies is_space(#[trigger] s[i]) by {
        if i >= a + b {
            assert(front[i - a] == s[i]);
        }
    }
    if b > 0 {
        assert(front[0] == s[a]);
        assert(front[b - 1] == s[a + b - 1]);
    }
    (a, a + b)
}

proof fn lemma_trim_start(s: Seq<char>) -> (a: int)
    ensures
        0 <= a <= s.len(),
        trim_start(s) == s.skip(a),
        forall|i: int| 0 <= i < a ==> is_space(#[trigger] s[i]),
        a < s.len() ==> !is_space(s[a]),
    decreases s.len(),
{
    if s.len() > 0 && is_space(s[0]) {
        let rest = s.drop_first();
        let b = lemma_trim_start(rest);
        assert(rest.skip(b) =~= s.skip(b + 1));
        assert forall|i: int| 0 <= i < b + 1 implies is_space(#[trigger] s[i]) by {
            if i > 0 {
                assert(rest[i - 1] == s[i]);
            }
        }
        b + 1
    } else {
        assert(s.skip(0) =~= s);
        0
    }
}

proof fn lemma_trim_end(s: Seq<char>) -> (b: int)
    ensures
        0 <= b <= s.len(),
        trim_end(s) == s.subrange(0, b),
        forall|i: int| b <= i < s.len() ==> is_space(#[trigger] s[i]),
        b > 0 ==> !is_space(s[b - 1]),
        s.len() > 0 && !is_space(s[0]) ==> b > 0,
    decreases s.len(),
{
    if s.len() > 0 && is_space(s.last()) {
        let rest = s.drop_last();
        let b = lemma_trim_end(rest);
        assert(rest.subrange(0, b) =~= s.subrange(0, b));
        assert forall|i: int| b <= i < s.len() implies is_space(#[trigger] s[i]) by {
            if i < rest.len() {
                assert(rest[i] == s[i]);
            }
        }
        b
    } else {
        assert(s.subrange(0, s.len() as int) =~= s);
        s.len() as int
    }
}

/// Blanks, tabs and line ends are white space; no visible character of ASCII is.
pub proof fn visible_characters_are_no_space(c: char)
    ensures
        c as u32 == 0x20 || c as u32 == 0x9 || c as u32 == 0xa || c as u32 == 0xd ==> is_space(c),
        0x21 <= c as u32 <= 0x7e ==> !is_space(c),
{
}

} // verus!
