//! Text: what the report's wording needs of strings.
use vstd::prelude::*;

verus! {

/// `String::push` puts the character at the end of the string.
pub assume_specification[ String::push ](s: &mut String, c: char)
    ensures
        final(s)@ == old(s)@.push(c),
;

/// What `str::to_lowercase` returns.
pub uninterp spec fn lowercase(s: Seq<char>) -> Seq<char>;

/// What `str::to_uppercase` returns.
pub uninterp spec fn uppercase(s: Seq<char>) -> Seq<char>;

/// `str::to_lowercase` depends on the text alone. The Unicode mapping itself is
/// left to the standard library.
pub assume_specification[ str::to_lowercase ](s: &str) -> (r: String)
    ensures
        r@ == lowercase(s@),
;

/// `str::to_uppercase` depends on the text alone. The Unicode mapping itself is
/// left to the standard library.
pub assume_specification[ str::to_uppercase ](s: &str) -> (r: String)
    ensures
        r@ == uppercase(s@),
;

/// `part` stands in `whole` from position `i` on.
pub open spec fn stands_at(whole: Seq<char>, part: Seq<char>, i: int) -> bool {
    0 <= i && i + part.len() <= whole.len() && whole.subrange(i, i + part.len()) == part
}

pub open spec fn contains(whole: Seq<char>, part: Seq<char>) -> bool {
    exists|i: int| stands_at(whole, part, i)
}

pub open spec fn ends_with(whole: Seq<char>, part: Seq<char>) -> bool {
    stands_at(whole, part, whole.len() - part.len())
}

/// `s` without the copies of `suffix` at its end.
pub open spec fn trim_end(s: Seq<char>, suffix: Seq<char>) -> Seq<char>
    decreases s.len(),
{
    if suffix.len() > 0 && ends_with(s, suffix) {
        trim_end(s.take(s.len() - suffix.len()), suffix)
    } else {
        s
    }
}

/// `n` copies of `c`.
pub open spec fn repeat(c: char, n: nat) -> Seq<char> {
    Seq::new(n, |i: int| c)
}

/// `s`, moved right in a column of the given width.
pub open spec fn right(s: Seq<char>, width: nat) -> Seq<char> {
    repeat(
        ' ',
        if s.len() < width {
            (width - s.len()) as nat
        } else {
            0
        },
    ) + s
}

/// `s`, kept left in a column of the given width.
pub open spec fn left(s: Seq<char>, width: nat) -> Seq<char> {
    s + repeat(
        ' ',
        if s.len() < width {
            (width - s.len()) as nat
        } else {
            0
        },
    )
}

/// The parts one after the other, `sep` between them.
pub open spec fn join(parts: Seq<Seq<char>>, sep: Seq<char>) -> Seq<char>
    decreases parts.len(),
{
    if parts.len() == 0 {
        Seq::empty()
    } else if parts.len() == 1 {
        parts[0]
    } else {
        join(parts.drop_last(), sep) + sep + parts.last()
    }
}

/// The texts of a list of strings.
pub open spec fn texts(list: Seq<String>) -> Seq<Seq<char>> {
    list.map_values(|s: String| s@)
}

/// The first position of `c` at or after `from`, or the end.
pub open spec fn position(s: Seq<char>, c: char, from: int) -> int
    decreases s.len() - from,
{
    if 0 <= from < s.len() {
        if s[from] == c {
            from
        } else {
            position(s, c, from + 1)
        }
    } else {
        s.len() as int
    }
}

/// The first line of `s`, without its line break; nothing where `s` is empty.
pub open spec fn first_line(s: Seq<char>) -> Option<Seq<char>> {
    let end = position(s, '\n', 0);
    if s.len() == 0 {
        None
    } else if end < s.len() && end > 0 && s[end - 1] == '\r' {
        Some(s.take(end - 1))
    } else {
        Some(s.take(end))
    }
}

/// The characters of `s`.
pub fn chars_of(s: &str) -> (r: Vec<char>)
    ensures
        r@ == s@,
{
    let mut r: Vec<char> = Vec::new();
    for c in it: s.chars()
        invariant
            it.seq() == s@,
            r@ == s@.take(it.index()),
    {
        r.push(c);
        assert(s@.take(it.index() + 1) =~= s@.take(it.index()).push(c));
    }
    assert(s@.take(s@.len() as int) =~= s@);
    r
}

/// The string of these characters.
pub fn from_chars(v: &Vec<char>) -> (r: String)
    ensures
        r@ == v@,
{
    let mut r = String::new();
    let mut i: usize = 0;
    while i < v.len()
        invariant
            i <= v.len(),
            r@ == v@.take(i as int),
        decreases v.len() - i,
    {
        r.push(v[i]);
        assert(v@.take(i + 1) =~= v@.take(i as int).push(v[i as int]));
        i = i + 1;
    }
    assert(v@.take(v@.len() as int) =~= v@);
    r
}

/// Whether two texts are the same.
pub fn same(a: &str, b: &str) -> (r: bool)
    ensures
        r == (a@ == b@),
{
    let x: String = a.to_owned();
    let y: String = b.to_owned();
    x == y
}

fn has_at(whole: &Vec<char>, part: &Vec<char>, at: usize) -> (r: bool)
    requires
        at + part@.len() <= whole@.len(),
    ensures
        r == stands_at(whole@, part@, at as int),
{
    let n: usize = whole.len();
    let mut i: usize = 0;
    while i < part.len()
        invariant
            i <= part@.len(),
            at + part@.len() <= whole@.len() == n,
            forall|k: int| 0 <= k < i ==> whole@[at + k] == part@[k],
        decreases part@.len() - i,
    {
        if whole[at + i] != part[i] {
            proof {
                let w = whole@.subrange(at as int, at + part@.len());
                assert(w[i as int] == whole@[at + i]);
            }
            return false;
        }
        i = i + 1;
    }
    assert(whole@.subrange(at as int, at + part@.len()) =~= part@);
    true
}

/// Whether `part` occurs in `whole`.
pub fn has(whole: &str, part: &str) -> (r: bool)
    ensures
        r == contains(whole@, part@),
{
    let w = chars_of(whole);
    let p = chars_of(part);
    if p.len() > w.len() {
        return false;
    }
    let last: usize = w.len() - p.len();
    let mut i: usize = 0;
    while i < last
        invariant
            w@ == whole@,
            p@ == part@,
            last == w@.len() - p@.len(),
            i <= last,
            forall|k: int| 0 <= k < i ==> !stands_at(whole@, part@, k),
        decreases last - i,
    {
        if has_at(&w, &p, i) {
            return true;
        }
        i = i + 1;
    }
    has_at(&w, &p, last)
}

/// `s` without the copies of `suffix` at its end.
pub fn without_suffix(s: &str, suffix: &str) -> (r: String)
    ensures
        r@ == trim_end(s@, suffix@),
{
    let mut w = chars_of(s);
    let p = chars_of(suffix);
    if p.len() == 0 {
        return from_chars(&w);
    }
    while p.len() <= w.len() && has_at(&w, &p, w.len() - p.len())
        invariant
            p@ == suffix@,
            p@.len() > 0,
            trim_end(w@, suffix@) == trim_end(s@, suffix@),
        ensures
            w@ == trim_end(s@, suffix@),
        decreases w@.len(),
    {
        let n: usize = w.len() - p.len();
        w.truncate(n);
    }
    from_chars(&w)
}

/// `n` copies of `c`.
pub fn copies(c: char, n: usize) -> (r: String)
    ensures
        r@ == repeat(c, n as nat),
{
    let mut r = String::new();
    let mut i: usize = 0;
    while i < n
        invariant
            i <= n,
            r@ =~= repeat(c, i as nat),
        decreases n - i,
    {
        r.push(c);
        i = i + 1;
    }
    r
}

/// `s`, moved right in a column of the given width.
pub fn pad_left(s: &str, width: usize) -> (r: String)
    ensures
        r@ == right(s@, width as nat),
{
    let n: usize = s.unicode_len();
    let mut r: String = copies(
        ' ',
        if n < width {
            width - n
        } else {
            0
        },
    );
    r.append(s);
    r
}

/// `s`, kept left in a column of the given width.
pub fn pad_right(s: &str, width: usize) -> (r: String)
    ensures
        r@ == left(s@, width as nat),
{
    let n: usize = s.unicode_len();
    let mut r: String = s.to_owned();
    let gap: String = copies(
        ' ',
        if n < width {
            width - n
        } else {
            0
        },
    );
    r.append(gap.as_str());
    r
}

/// The parts one after the other, `sep` between them.
pub fn joined(parts: &Vec<String>, sep: &str) -> (r: String)
    ensures
        r@ == join(texts(parts@), sep@),
{
    let mut r = String::new();
    let mut i: usize = 0;
    let ghost all = texts(parts@);
    while i < parts.len()
        invariant
            i <= parts@.len(),
            all == texts(parts@),
            r@ == join(all.take(i as int), sep@),
        decreases parts@.len() - i,
    {
        proof {
            assert(all.take(i + 1).drop_last() =~= all.take(i as int));
            assert(all.take(i + 1).last() == parts@[i as int]@);
        }
        if i > 0 {
            r.append(sep);
        } else {
            assert(all.take(0) =~= Seq::empty());
            assert(Seq::<char>::empty() + parts@[0]@ =~= parts@[0]@);
        }
        r.append(parts[i].as_str());
        i = i + 1;
    }
    assert(all.take(parts@.len() as int) =~= all);
    r
}

/// The first line of `s`, without its line break; nothing where `s` is empty.
pub fn line_of(s: &str) -> (r: Option<String>)
    ensures
        r is Some == first_line(s@) is Some,
        r matches Some(t) ==> first_line(s@) == Some(t@),
{
    let v = chars_of(s);
    if v.len() == 0 {
        return None;
    }
    let mut i: usize = 0;
    while i < v.len() && v[i] != '\n'
        invariant
            v@ == s@,
            i <= v@.len(),
            position(s@, '\n', 0) == position(s@, '\n', i as int),
        ensures
            i == position(s@, '\n', 0),
            i <= v@.len(),
        decreases v@.len() - i,
    {
        i = i + 1;
    }
    let end: usize = if i < v.len() && i > 0 && v[i - 1] == '\r' {
        i - 1
    } else {
        i
    };
    Some(s.substring_char(0, end).to_owned())
}

// ---------------------------------------------------------------------------
// What holds of every text
// ---------------------------------------------------------------------------

/// A column keeps the text and is as wide as it was asked to be, unless the text is
/// wider; what room is left is blank, at the left or at the right.
pub proof fn columns_keep_the_text(s: Seq<char>, width: nat)
    ensures
        ({
            let n = if s.len() < width {
                width
            } else {
                s.len()
            };
            let gap = n - s.len();
            &&& right(s, width).len() == n
            &&& right(s, width).skip(gap) == s
            &&& forall|k: int| 0 <= k < gap ==> #[trigger] right(s, width)[k] == ' '
            &&& left(s, width).len() == n
            &&& left(s, width).take(s.len() as int) == s
            &&& forall|k: int| s.len() <= k < n ==> #[trigger] left(s, width)[k] == ' '
        }),
{
    let n = if s.len() < width {
        width
    } else {
        s.len()
    };
    assert(right(s, width).skip(n - s.len()) =~= s);
    assert(left(s, width).take(s.len() as int) =~= s);
}

/// One part by itself is joined to itself, and each further one comes after the
/// separator.
pub proof fn parts_are_joined_in_order(parts: Seq<Seq<char>>, part: Seq<char>, sep: Seq<char>)
    ensures
        join(seq![part], sep) == part,
        parts.len() > 0 ==> join(parts.push(part), sep) == join(parts, sep) + sep + part,
        parts.len() == 0 ==> join(parts, sep).len() == 0,
{
    assert(parts.push(part).drop_last() =~= parts);
}

/// What is left once an ending was taken off does not have that ending, and is how the
/// text begins.
pub proof fn trimmed_texts_have_no_such_ending(s: Seq<char>, suffix: Seq<char>)
    requires
        suffix.len() > 0,
    ensures
        !ends_with(trim_end(s, suffix), suffix),
        trim_end(s, suffix).len() <= s.len(),
        trim_end(s, suffix) == s.take(trim_end(s, suffix).len() as int),
        !ends_with(s, suffix) ==> trim_end(s, suffix) == s,
    decreases s.len(),
{
    if ends_with(s, suffix) {
        let rest = s.take(s.len() - suffix.len());
        trimmed_texts_have_no_such_ending(rest, suffix);
        let n = trim_end(s, suffix).len() as int;
        assert(rest.take(n) =~= s.take(n));
    } else {
        assert(s.take(s.len() as int) =~= s);
    }
}

/// A text contains what it is made of.
pub proof fn texts_contain_their_parts(before: Seq<char>, part: Seq<char>, after: Seq<char>)
    ensures
        contains(before + part + after, part),
{
    let whole = before + part + after;
    let i = before.len() as int;
    assert(whole.subrange(i, i + part.len()) =~= part);
    assert(stands_at(whole, part, i));
}

proof fn lemma_position(s: Seq<char>, c: char, from: int, at: int)
    requires
        0 <= from <= at <= s.len(),
        forall|k: int| from <= k < at ==> #[trigger] s[k] != c,
        at < s.len() ==> s[at] == c,
    ensures
        position(s, c, from) == at,
    decreases at - from,
{
    if from < at {
        assert(s[from] != c);
        lemma_position(s, c, from + 1, at);
    }
}

/// The first line is what comes before the first line break, or everything where there is
/// none.
pub proof fn first_lines_end_at_the_break(line: Seq<char>, rest: Seq<char>)
    requires
        line.len() > 0,
        forall|k: int| 0 <= k < line.len() ==> #[trigger] line[k] != '\n',
        line.last() != '\r',
    ensures
        first_line(line) == Some(line),
        first_line(line.push('\n') + rest) == Some(line),
        first_line(line.push('\r').push('\n') + rest) == Some(line),
        first_line(Seq::empty()) is None,
{
    let a = line.push('\n') + rest;
    let b = line.push('\r').push('\n') + rest;
    let n = line.len() as int;
    lemma_position(line, '\n', 0, n);
    assert(line.take(n) =~= line);
    assert forall|k: int| 0 <= k < n implies #[trigger] a[k] != '\n' by {
        assert(a[k] == line[k]);
    }
    lemma_position(a, '\n', 0, n);
    assert(a[n - 1] == line.last());
    assert(a.take(n) =~= line);
    assert forall|k: int| 0 <= k < n + 1 implies #[trigger] b[k] != '\n' by {
        if k < n {
            assert(b[k] == line[k]);
        }
    }
    lemma_position(b, '\n', 0, n + 1);
    assert(b.take(n) =~= line);
}

} // verus!
