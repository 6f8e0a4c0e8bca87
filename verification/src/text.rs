use vstd::prelude::*;

verus! {

/// Appends one character to a string.
///
/// Trusted: `String::push` adds `c` at the end of the string and changes
/// nothing else.
#[verifier::external_body]
pub(crate) fn push_char(s: &mut String, c: char)
    ensures
        final(s)@ == old(s)@.push(c),
{
    s.push(c);
}

/// Character-wise equality of two string slices.
pub fn str_eq(a: &str, b: &str) -> (r: bool)
    ensures
        r == (a@ == b@),
{
    a.to_owned() == b.to_owned()
}

/// An owned copy of a string slice.
pub fn owned(s: &str) -> (r: String)
    ensures
        r@ == s@,
{
    s.to_owned()
}

/// The characters `v[from..to]` collected into a `String`.
pub fn chars_to_string(v: &Vec<char>, from: usize, to: usize) -> (r: String)
    requires
        from <= to <= v.len(),
    ensures
        r@ == v@.subrange(from as int, to as int),
{
    let mut s = String::new();
    let mut i = from;
    while i < to
        invariant
            from <= i <= to,
            to <= v.len(),
            s@ == v@.subrange(from as int, i as int),
        decreases to - i,
    {
        push_char(&mut s, v[i]);
        i += 1;
        assert(s@ =~= v@.subrange(from as int, i as int));
    }
    s
}

/// The characters of a string slice, in order.
pub fn str_chars(s: &str) -> (r: Vec<char>)
    ensures
        r@ == s@,
{
    let mut v: Vec<char> = Vec::new();
    for c in it: s.chars()
        invariant
            v@ == it.seq().take(it.index() as int),
            it.seq() == s@,
    {
        v.push(c);
        assert(v@ =~= it.seq().take(it.index() as int + 1));
    }
    v
}

/// A placeholder `{}` starts at `p`.
pub open spec fn placeholder_at(s: Seq<char>, p: int) -> bool {
    0 <= p && p + 1 < s.len() && s[p] == '{' && s[p + 1] == '}'
}

/// The first placeholder `{}` at or after `from`.
pub open spec fn first_placeholder(s: Seq<char>, from: int) -> Option<int>
    decreases s.len() - from,
{
    if from < 0 || from + 1 >= s.len() {
        None
    } else if placeholder_at(s, from) {
        Some(from)
    } else {
        first_placeholder(s, from + 1)
    }
}

/// `s` with its first placeholder `{}`, if it has one, replaced by `r`.
pub open spec fn replace_first(s: Seq<char>, r: Seq<char>) -> Seq<char> {
    match first_placeholder(s, 0) {
        Some(p) => s.take(p) + r + s.skip(p + 2),
        None => s,
    }
}

/// The template `t` with its placeholders filled by `parts` in turn: each
/// part replaces the first placeholder of the text so far (placeholders a
/// part brings in count too); a part left with no placeholder is dropped.
pub open spec fn fill(t: Seq<char>, parts: Seq<Seq<char>>) -> Seq<char>
    decreases parts.len(),
{
    if parts.len() == 0 {
        t
    } else {
        replace_first(fill(t, parts.drop_last()), parts.last())
    }
}

/// `s` with its first placeholder `{}` replaced by `r`.
fn replace_first_chars(s: &Vec<char>, r: &Vec<char>) -> (out: Vec<char>)
    ensures
        out@ == replace_first(s@, r@),
{
    let mut p: usize = 0;
    while p < s.len() && p + 1 < s.len() && !(s[p] == '{' && s[p + 1] == '}')
        invariant
            p <= s@.len(),
            first_placeholder(s@, 0) == first_placeholder(s@, p as int),
        decreases s.len() - p,
    {
        p += 1;
    }
    if p >= s.len() || p + 1 >= s.len() {
        assert(first_placeholder(s@, p as int) is None);
        return s.clone();
    }
    let mut out: Vec<char> = Vec::new();
    let mut i: usize = 0;
    while i < p
        invariant
            i <= p < s@.len(),
            out@ == s@.take(i as int),
        decreases p - i,
    {
        out.push(s[i]);
        i += 1;
        assert(out@ =~= s@.take(i as int));
    }
    let mut j: usize = 0;
    while j < r.len()
        invariant
            j <= r@.len(),
            out@ == s@.take(p as int) + r@.take(j as int),
        decreases r.len() - j,
    {
        out.push(r[j]);
        j += 1;
        assert(out@ =~= s@.take(p as int) + r@.take(j as int));
    }
    let mut k: usize = p + 2;
    assert(r@.take(r@.len() as int) =~= r@);
    assert(s@.skip(p + 2).take(0) =~= Seq::<char>::empty());
    while k < s.len()
        invariant
            p + 2 <= k <= s@.len(),
            out@ == s@.take(p as int) + r@ + s@.skip(p + 2).take(k - p - 2),
        decreases s.len() - k,
    {
        out.push(s[k]);
        k += 1;
        assert(out@ =~= s@.take(p as int) + r@ + s@.skip(p + 2).take(k - p - 2));
    }
    assert(s@.skip(p + 2).take(k - p - 2) =~= s@.skip(p + 2));
    out
}

/// The template with its placeholders `{}` filled by `parts` in turn, as
/// `fill` says.
pub fn fill_placeholders(template: &str, parts: &Vec<String>) -> (r: String)
    ensures
        r@ == fill(template@, parts@.map_values(|x: String| x@)),
{
    let mut cur = str_chars(template);
    let ghost ps = parts@.map_values(|x: String| x@);
    let mut i: usize = 0;
    assert(ps.take(0) =~= Seq::<Seq<char>>::empty());
    while i < parts.len()
        invariant
            i <= parts@.len(),
            ps == parts@.map_values(|x: String| x@),
            cur@ == fill(template@, ps.take(i as int)),
        decreases parts.len() - i,
    {
        let part = str_chars(parts[i].as_str());
        cur = replace_first_chars(&cur, &part);
        proof {
            assert(ps.take(i + 1).drop_last() =~= ps.take(i as int));
            assert(ps.take(i + 1).last() == parts@[i as int]@);
        }
        i += 1;
    }
    assert(ps.take(i as int) =~= ps);
    chars_to_string(&cur, 0, cur.len())
}

} // verus!
