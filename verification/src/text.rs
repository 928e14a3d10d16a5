use vstd::prelude::*;

verus! {

/// The texts of a sequence of strings.
pub open spec fn strings_view(v: Seq<String>) -> Seq<Seq<char>> {
    v.map_values(|s: String| s@)
}

/// Appends `c` to `s`.
///
/// Trusted: calls `String::push`, which std documents as appending the given
/// character to the end of the string; the contract says exactly that.
#[verifier::external_body]
pub(crate) fn push_char(s: &mut String, c: char)
    ensures
        final(s)@ == old(s)@.push(c),
{
    s.push(c);
}

/// The characters of `s`, in order.
pub fn chars_of(s: &str) -> (v: Vec<char>)
    ensures
        v@ == s@,
        v@.len() <= usize::MAX,
{
    let mut v: Vec<char> = Vec::new();
    for c in it: s.chars()
        invariant
            it.index() <= s@.len(),
            it.seq() == s@,
            v@ == s@.take(it.index() as int),
    {
        v.push(c);
    }
    let n: usize = v.len();
    assert(n == v@.len());
    v
}

/// The string made of the characters of `v`, in order.
pub fn string_of(v: &[char]) -> (s: String)
    ensures
        s@ == v@,
{
    let mut s = String::new();
    let mut i: usize = 0;
    while i < v.len()
        invariant
            i <= v@.len(),
            s@ == v@.take(i as int),
        decreases v@.len() - i,
    {
        push_char(&mut s, v[i]);
        i += 1;
        assert(v@.take(i as int) =~= v@.take(i - 1).push(v@[i - 1]));
    }
    assert(v@.take(v@.len() as int) =~= v@);
    s
}

/// Whether `a` and `b` hold the same characters.
pub fn chars_eq(a: &[char], b: &[char]) -> (r: bool)
    ensures
        r == (a@ == b@),
{
    if a.len() != b.len() {
        return false;
    }
    let mut i: usize = 0;
    while i < a.len()
        invariant
            a@.len() == b@.len(),
            i <= a@.len(),
            forall|j: int| 0 <= j < i ==> a@[j] == b@[j],
        decreases a@.len() - i,
    {
        if a[i] != b[i] {
            return false;
        }
        i += 1;
    }
    assert(a@ =~= b@);
    true
}

/// Whether `c` is white space in the sense of Unicode's `White_Space` property,
/// which is what `char::is_whitespace` tests.
pub open spec fn is_space(c: char) -> bool {
    c == ' ' || ('\u{9}' <= c <= '\u{d}') || c == '\u{85}' || c == '\u{a0}' || c == '\u{1680}'
        || ('\u{2000}' <= c <= '\u{200a}') || c == '\u{2028}' || c == '\u{2029}' || c
        == '\u{202f}' || c == '\u{205f}' || c == '\u{3000}'
}

/// Whether `c` is white space (see `is_space`).
pub fn is_whitespace(c: char) -> (r: bool)
    ensures
        r == is_space(c),
{
    c == ' ' || ('\u{9}' <= c && c <= '\u{d}') || c == '\u{85}' || c == '\u{a0}' || c
        == '\u{1680}' || ('\u{2000}' <= c && c <= '\u{200a}') || c == '\u{2028}' || c
        == '\u{2029}' || c == '\u{202f}' || c == '\u{205f}' || c == '\u{3000}'
}

/// `s` without its trailing white space.
pub open spec fn trim_end(s: Seq<char>) -> Seq<char>
    decreases s.len(),
{
    if s.len() > 0 && is_space(s.last()) {
        trim_end(s.drop_last())
    } else {
        s
    }
}

/// `s` without its leading white space.
pub open spec fn trim_start(s: Seq<char>) -> Seq<char>
    decreases s.len(),
{
    if s.len() > 0 && is_space(s[0]) {
        trim_start(s.drop_first())
    } else {
        s
    }
}

/// `s` without its leading and trailing white space.
pub open spec fn trim(s: Seq<char>) -> Seq<char> {
    trim_start(trim_end(s))
}

/// Whether `s` starts with `p`.
pub open spec fn starts_with(s: Seq<char>, p: Seq<char>) -> bool {
    p.len() <= s.len() && s.subrange(0, p.len() as int) == p
}

/// The strings of `ws` with `sep` between each two of them.
pub open spec fn join(ws: Seq<Seq<char>>, sep: Seq<char>) -> Seq<char>
    decreases ws.len(),
{
    if ws.len() == 0 {
        Seq::empty()
    } else if ws.len() == 1 {
        ws[0]
    } else {
        join(ws.drop_last(), sep) + sep + ws.last()
    }
}

/// The index just after the last character of `v` that is not white space.
pub fn trimmed_end_len(v: &[char]) -> (e: usize)
    ensures
        e <= v@.len(),
        trim_end(v@) == v@.subrange(0, e as int),
{
    let mut e = v.len();
    assert(v@.subrange(0, e as int) =~= v@);
    while e > 0 && is_whitespace(v[e - 1])
        invariant
            e <= v@.len(),
            trim_end(v@) == trim_end(v@.subrange(0, e as int)),
        decreases e,
    {
        assert(v@.subrange(0, e as int).drop_last() =~= v@.subrange(0, e - 1));
        e -= 1;
    }
    e
}

/// The index of the first character of `v[..end]` that is not white space, or `end`.
pub fn trimmed_start(v: &[char], end: usize) -> (b: usize)
    requires
        end <= v@.len(),
    ensures
        b <= end,
        trim_start(v@.subrange(0, end as int)) == v@.subrange(b as int, end as int),
{
    let mut b: usize = 0;
    assert(v@.subrange(0, end as int) =~= v@.subrange(0, end as int));
    while b < end && is_whitespace(v[b])
        invariant
            b <= end <= v@.len(),
            trim_start(v@.subrange(0, end as int)) == trim_start(v@.subrange(b as int, end as int)),
        decreases end - b,
    {
        assert(v@.subrange(b as int, end as int).drop_first() =~= v@.subrange(b + 1, end as int));
        b += 1;
    }
    b
}

/// `v` without its leading and trailing white space.
pub fn trim_chars(v: &[char]) -> (r: Vec<char>)
    ensures
        r@ == trim(v@),
{
    let e = trimmed_end_len(v);
    let b = trimmed_start(v, e);
    let mut r: Vec<char> = Vec::new();
    let mut i = b;
    while i < e
        invariant
            b <= i <= e <= v@.len(),
            r@ == v@.subrange(b as int, i as int),
        decreases e - i,
    {
        r.push(v[i]);
        i += 1;
        assert(r@ =~= v@.subrange(b as int, i as int));
    }
    r
}

/// `s` without its leading and trailing white space.
pub fn trim_string(s: &str) -> (r: String)
    ensures
        r@ == trim(s@),
{
    let v = chars_of(s);
    let t = trim_chars(v.as_slice());
    string_of(t.as_slice())
}

/// Whether `s` starts with `p`.
pub fn chars_start_with(s: &[char], p: &[char]) -> (r: bool)
    ensures
        r == starts_with(s@, p@),
{
    if p.len() > s.len() {
        return false;
    }
    let mut i: usize = 0;
    while i < p.len()
        invariant
            p@.len() <= s@.len(),
            i <= p@.len(),
            forall|j: int| 0 <= j < i ==> s@[j] == p@[j],
        decreases p@.len() - i,
    {
        if s[i] != p[i] {
            assert(s@.subrange(0, p@.len() as int)[i as int] != p@[i as int]);
            return false;
        }
        i += 1;
    }
    assert(s@.subrange(0, p@.len() as int) =~= p@);
    true
}

/// The strings of `v` with `sep` between each two of them.
pub fn join_strings(v: &[String], sep: &str) -> (r: String)
    ensures
        r@ == join(strings_view(v@), sep@),
{
    let mut r = String::new();
    let ghost ws = strings_view(v@);
    let mut i: usize = 0;
    assert(ws.take(0) =~= Seq::<Seq<char>>::empty());
    while i < v.len()
        invariant
            i <= v@.len(),
            ws == strings_view(v@),
            r@ == join(ws.take(i as int), sep@),
        decreases v@.len() - i,
    {
        if i != 0 {
            r.append(sep);
        }
        r.append(v[i].as_str());
        assert(ws.take(i + 1).drop_last() =~= ws.take(i as int));
        i += 1;
    }
    assert(ws.take(v@.len() as int) =~= ws);
    r
}

/// Whether one of the strings of `v` has the text of `s`.
pub fn contains_string(v: &[String], s: &String) -> (r: bool)
    ensures
        r == strings_view(v@).contains(s@),
{
    let mut i: usize = 0;
    while i < v.len()
        invariant
            i <= v@.len(),
            forall|j: int| 0 <= j < i ==> v@[j]@ != s@,
        decreases v@.len() - i,
    {
        if v[i] == *s {
            assert(strings_view(v@)[i as int] == s@);
            return true;
        }
        i += 1;
    }
    assert forall|j: int| 0 <= j < strings_view(v@).len() implies strings_view(v@)[j] != s@ by {
        assert(strings_view(v@)[j] == v@[j]@);
    }
    false
}

/// `s` without the copies of `c` at its end.
pub open spec fn trim_end_char(s: Seq<char>, c: char) -> Seq<char>
    decreases s.len(),
{
    if s.len() > 0 && s.last() == c {
        trim_end_char(s.drop_last(), c)
    } else {
        s
    }
}

/// `v` without the copies of `c` at its end.
pub fn trim_end_char_chars(v: &[char], c: char) -> (r: Vec<char>)
    ensures
        r@ == trim_end_char(v@, c),
{
    let mut e = v.len();
    assert(v@.subrange(0, e as int) =~= v@);
    while e > 0 && v[e - 1] == c
        invariant
            e <= v@.len(),
            trim_end_char(v@, c) == trim_end_char(v@.subrange(0, e as int), c),
        decreases e,
    {
        assert(v@.subrange(0, e as int).drop_last() =~= v@.subrange(0, e - 1));
        e -= 1;
    }
    let mut r: Vec<char> = Vec::new();
    let mut i: usize = 0;
    while i < e
        invariant
            i <= e <= v@.len(),
            r@ == v@.subrange(0, i as int),
        decreases e - i,
    {
        r.push(v[i]);
        i += 1;
        assert(r@ =~= v@.subrange(0, i as int));
    }
    r
}

/// `v` without its trailing white space.
pub fn trim_end_chars(v: &[char]) -> (r: Vec<char>)
    ensures
        r@ == trim_end(v@),
{
    let e = trimmed_end_len(v);
    let mut r: Vec<char> = Vec::new();
    let mut i: usize = 0;
    while i < e
        invariant
            i <= e <= v@.len(),
            r@ == v@.subrange(0, i as int),
        decreases e - i,
    {
        r.push(v[i]);
        i += 1;
        assert(r@ =~= v@.subrange(0, i as int));
    }
    r
}

/// The characters `v[from..to]`.
pub fn slice_chars(v: &[char], from: usize, to: usize) -> (r: Vec<char>)
    requires
        from <= to <= v@.len(),
    ensures
        r@ == v@.subrange(from as int, to as int),
{
    let mut r: Vec<char> = Vec::new();
    let mut i = from;
    while i < to
        invariant
            from <= i <= to <= v@.len(),
            r@ == v@.subrange(from as int, i as int),
        decreases to - i,
    {
        r.push(v[i]);
        i += 1;
        assert(r@ =~= v@.subrange(from as int, i as int));
    }
    r
}

} // verus!
