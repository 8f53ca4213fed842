//! Relative paths: one normal form shared by every component.

use vstd::prelude::*;

verus! {

/// The separator of normalized paths.
pub open spec fn is_separator(c: char) -> bool {
    c == '/'
}

/// A backslash becomes a slash, any other character stays.
pub open spec fn unify(c: char) -> char {
    if c == '\\' {
        '/'
    } else {
        c
    }
}

/// `p` with every backslash turned into a slash.
pub open spec fn unified(p: Seq<char>) -> Seq<char> {
    Seq::new(p.len(), |i: int| unify(p[i]))
}

/// `s` without its leading separators.
pub open spec fn trim_front(s: Seq<char>) -> Seq<char>
    decreases s.len(),
{
    if s.len() > 0 && is_separator(s[0]) {
        trim_front(s.drop_first())
    } else {
        s
    }
}

/// `s` without its trailing separators.
pub open spec fn trim_back(s: Seq<char>) -> Seq<char>
    decreases s.len(),
{
    if s.len() > 0 && is_separator(s.last()) {
        trim_back(s.drop_last())
    } else {
        s
    }
}

/// The normal form of a relative path: slashes only, none at either end.
pub open spec fn normalized(p: Seq<char>) -> Seq<char> {
    trim_back(trim_front(unified(p)))
}

/// A path in normal form: no backslash, and no separator at either end.
pub open spec fn is_normal(p: Seq<char>) -> bool {
    &&& forall|i: int| 0 <= i < p.len() ==> p[i] != '\\'
    &&& p.len() > 0 ==> !is_separator(p[0]) && !is_separator(p.last())
}

/// What [`trim_front`] leaves is the end of the sequence, and does not
/// start with a separator.
pub proof fn lemma_trim_front(s: Seq<char>)
    ensures
        trim_front(s).len() <= s.len(),
        forall|i: int|
            0 <= i < trim_front(s).len() ==> #[trigger] trim_front(s)[i] == s[i + s.len()
                - trim_front(s).len()],
        trim_front(s).len() > 0 ==> !is_separator(trim_front(s)[0]),
    decreases s.len(),
{
    if s.len() > 0 && is_separator(s[0]) {
        lemma_trim_front(s.drop_first());
    }
}

/// What [`trim_back`] leaves is the start of the sequence, and does not
/// end with a separator.
pub proof fn lemma_trim_back(s: Seq<char>)
    ensures
        trim_back(s).len() <= s.len(),
        forall|i: int| 0 <= i < trim_back(s).len() ==> #[trigger] trim_back(s)[i] == s[i],
        trim_back(s).len() > 0 ==> !is_separator(trim_back(s).last()),
    decreases s.len(),
{
    if s.len() > 0 && is_separator(s.last()) {
        lemma_trim_back(s.drop_last());
    }
}

/// The normal form of any path is in normal form.
pub proof fn lemma_normalized_is_normal(p: Seq<char>)
    ensures
        is_normal(normalized(p)),
{
    let u = unified(p);
    let t = trim_front(u);
    let r = trim_back(t);
    lemma_trim_front(u);
    lemma_trim_back(t);
    assert forall|i: int| 0 <= i < r.len() implies r[i] != '\\' by {
        assert(r[i] == t[i]);
        assert(t[i] == u[i + u.len() - t.len()]);
    }
    if r.len() > 0 {
        assert(r[0] == t[0]);
    }
}

/// A path in normal form is its own normal form.
pub proof fn lemma_normal_is_fixed(p: Seq<char>)
    requires
        is_normal(p),
    ensures
        normalized(p) == p,
{
    assert(unified(p) =~= p);
}

/// Normalizing twice gives what normalizing once gives.
pub proof fn lemma_normalize_idempotent(p: Seq<char>)
    ensures
        normalized(normalized(p)) == normalized(p),
{
    lemma_normalized_is_normal(p);
    lemma_normal_is_fixed(normalized(p));
}

/// `String::push`: the string is extended by the one character `c`.
#[verifier::external_body]
fn push_char(s: &mut String, c: char)
    ensures
        final(s)@ == old(s)@.push(c),
{
    s.push(c)
}

/// The characters of `s`, in order.
pub fn chars_of(s: &str) -> (v: Vec<char>)
    ensures
        v@ == s@,
{
    let mut v: Vec<char> = Vec::new();
    for c in it: s.chars()
        invariant
            v@ == it.seq().take(it.index()),
    {
        v.push(c);
    }
    v
}

/// The string made of `chars[from..to]`, each backslash turned into a
/// slash.
fn string_of(chars: &Vec<char>, from: usize, to: usize) -> (s: String)
    requires
        from <= to <= chars.len(),
    ensures
        s@ == unified(chars@).subrange(from as int, to as int),
{
    let mut s = String::new();
    let mut i: usize = from;
    while i < to
        invariant
            from <= i <= to <= chars.len(),
            s@ == unified(chars@).subrange(from as int, i as int),
        decreases to - i,
    {
        let c = chars[i];
        let out = if c == '\\' {
            '/'
        } else {
            c
        };
        push_char(&mut s, out);
        i += 1;
    }
    s
}

/// Brings a relative path into its normal form: every backslash becomes a
/// slash, and the separators at the front and at the end are cut off. The
/// directories of the path are kept. This is the one normal form of the
/// library: every record of a manifest holds its path as this function
/// gives it.
pub fn trim_relative_path(relative_path: &str) -> (out: String)
    ensures
        out@ == normalized(relative_path@),
        is_normal(out@),
{
    let chars = chars_of(relative_path);
    let ghost u = unified(chars@);
    let n = chars.len();
    let mut start: usize = 0;
    assert(u.skip(0) =~= u);
    while start < n && (chars[start] == '/' || chars[start] == '\\')
        invariant
            start <= n,
            n == chars.len(),
            u == unified(chars@),
            trim_front(u) == trim_front(u.skip(start as int)),
        decreases n - start,
    {
        assert(u.skip(start as int).drop_first() =~= u.skip(start + 1));
        start += 1;
    }
    let ghost front = u.skip(start as int);
    assert(trim_front(u) == front);
    let mut end: usize = n;
    assert(front =~= u.subrange(start as int, n as int));
    while end > start && (chars[end - 1] == '/' || chars[end - 1] == '\\')
        invariant
            start <= end <= n,
            n == chars.len(),
            u == unified(chars@),
            trim_back(front) == trim_back(u.subrange(start as int, end as int)),
        decreases end,
    {
        assert(u.subrange(start as int, end as int).drop_last() =~= u.subrange(
            start as int,
            end - 1,
        ));
        end -= 1;
    }
    string_of(&chars, start, end)
}

/// Whether a path is in normal form.
pub fn is_normal_path(path: &str) -> (normal: bool)
    ensures
        normal == is_normal(path@),
{
    let chars = chars_of(path);
    let n = chars.len();
    if n > 0 && (chars[0] == '/' || chars[n - 1] == '/') {
        return false;
    }
    let mut i: usize = 0;
    while i < n
        invariant
            i <= n,
            n == chars.len(),
            chars@ == path@,
            forall|k: int| 0 <= k < i ==> chars@[k] != '\\',
        decreases n - i,
    {
        if chars[i] == '\\' {
            assert(path@[i as int] == '\\');
            return false;
        }
        i += 1;
    }
    true
}

} // verus!
