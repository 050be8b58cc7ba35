use vstd::prelude::*;

verus! {

/// The pieces of `s` between occurrences of `d`, in order; `d` itself is dropped.
/// There is always one piece more than there are occurrences of `d`.
pub open spec fn split(s: Seq<char>, d: char) -> Seq<Seq<char>>
    decreases s.len(),
{
    if s.len() == 0 {
        seq![Seq::<char>::empty()]
    } else {
        let pieces = split(s.drop_last(), d);
        if s.last() == d {
            pieces.push(Seq::<char>::empty())
        } else {
            pieces.update(pieces.len() - 1, pieces.last().push(s.last()))
        }
    }
}

/// `s` holds no occurrence of `d`.
pub open spec fn free_of(s: Seq<char>, d: char) -> bool {
    forall|i: int| 0 <= i < s.len() ==> s[i] != d
}

/// `q` occurs in `s` as a contiguous run of characters.
pub open spec fn contains_run(s: Seq<char>, q: Seq<char>) -> bool {
    exists|i: int| 0 <= i && i + q.len() <= s.len() && #[trigger] s.subrange(i, i + q.len()) == q
}

/// Relies on std's `String::push`: appends one character.
#[verifier::external_body]
fn push_char(s: &mut String, c: char)
    ensures
        final(s)@ == old(s)@.push(c),
{
    s.push(c)
}

/// The characters of `s`, in order.
pub fn chars_of(s: &str) -> (r: Vec<char>)
    ensures
        r@ == s@,
{
    let mut r: Vec<char> = Vec::new();
    for c in it: s.chars()
        invariant
            r@ == it.seq().subrange(0, it.index() as int),
    {
        r.push(c);
    }
    r
}

/// The views of a sequence of strings.
pub open spec fn string_views(v: Seq<String>) -> Seq<Seq<char>> {
    v.map_values(|x: String| x@)
}

/// Appends the characters of `t` to `s`.
pub fn append_str(s: &mut String, t: &str)
    ensures
        final(s)@ == old(s)@ + t@,
{
    let tc = chars_of(t);
    let mut i: usize = 0;
    while i < tc.len()
        invariant
            i <= tc.len(),
            tc@ == t@,
            s@ == old(s)@ + tc@.subrange(0, i as int),
        decreases tc.len() - i,
    {
        push_char(s, tc[i]);
        i = i + 1;
        assert(s@ =~= old(s)@ + tc@.subrange(0, i as int));
    }
    assert(tc@.subrange(0, tc@.len() as int) =~= tc@);
}

/// Appends one character to `s`.
pub fn append_char(s: &mut String, c: char)
    ensures
        final(s)@ == old(s)@.push(c),
{
    push_char(s, c);
}

/// Cuts `v` at every occurrence of `d`.
pub fn split_text(v: &Vec<char>, d: char) -> (r: Vec<String>)
    ensures
        string_views(r@) == split(v@, d),
{
    let mut done: Vec<String> = Vec::new();
    let mut cur = String::new();
    let mut i: usize = 0;
    while i < v.len()
        invariant
            i <= v.len(),
            string_views(done@).push(cur@) == split(v@.subrange(0, i as int), d),
        decreases v.len() - i,
    {
        let ghost prefix = v@.subrange(0, i as int);
        let ghost pieces = split(prefix, d);
        assert(v@.subrange(0, i + 1).drop_last() =~= prefix);
        if v[i] == d {
            let finished = cur;
            cur = String::new();
            done.push(finished);
            assert(string_views(done@).push(cur@) =~= pieces.push(Seq::<char>::empty()));
        } else {
            append_char(&mut cur, v[i]);
            assert(string_views(done@).push(cur@) =~= pieces.update(
                pieces.len() - 1,
                pieces.last().push(v@[i as int]),
            ));
        }
        i = i + 1;
    }
    assert(v@.subrange(0, v@.len() as int) =~= v@);
    done.push(cur);
    assert(string_views(done@) =~= split(v@, d));
    done
}

/// Whether `s` holds `q` as a contiguous run of characters.
pub fn has_run(s: &Vec<char>, q: &Vec<char>) -> (r: bool)
    ensures
        r == contains_run(s@, q@),
{
    if q.len() > s.len() {
        return false;
    }
    if q.len() == 0 {
        assert(s@.subrange(0, 0 + q@.len() as int) =~= q@);
        return true;
    }
    let last = s.len() - q.len();
    let mut i: usize = 0;
    while i <= last
        invariant
            last == s.len() - q.len(),
            q.len() <= s.len(),
            i <= last + 1,
            forall|k: int| 0 <= k < i ==> #[trigger] s@.subrange(k, k + q@.len()) != q@,
        decreases last + 1 - i,
    {
        let mut j: usize = 0;
        let mut same = true;
        assert(s@.subrange(i as int, i as int) =~= q@.subrange(0, 0));
        while j < q.len()
            invariant
                i <= last,
                last == s.len() - q.len(),
                j <= q.len(),
                same == (s@.subrange(i as int, i + j) == q@.subrange(0, j as int)),
            decreases q.len() - j,
        {
            if same && s[i + j] != q[j] {
                assert(s@.subrange(i as int, i + j + 1)[j as int] != q@.subrange(0, j + 1)[j as int]);
                same = false;
            } else if same {
                assert(s@.subrange(i as int, i + j + 1) =~= s@.subrange(i as int, i + j).push(s@[i + j]));
                assert(q@.subrange(0, j + 1) =~= q@.subrange(0, j as int).push(q@[j as int]));
            } else {
                assert(s@.subrange(i as int, i + j + 1).subrange(0, j as int) =~= s@.subrange(i as int, i + j));
                assert(q@.subrange(0, j + 1).subrange(0, j as int) =~= q@.subrange(0, j as int));
            }
            j = j + 1;
        }
        assert(q@.subrange(0, q@.len() as int) =~= q@);
        if same {
            return true;
        }
        i = i + 1;
    }
    false
}

/// `s` without its leading line breaks.
pub open spec fn trim_breaks_start(s: Seq<char>) -> Seq<char>
    decreases s.len(),
{
    if s.len() > 0 && s[0] == '\n' {
        trim_breaks_start(s.drop_first())
    } else {
        s
    }
}

/// `s` without its trailing line breaks.
pub open spec fn trim_breaks_end(s: Seq<char>) -> Seq<char>
    decreases s.len(),
{
    if s.len() > 0 && s.last() == '\n' {
        trim_breaks_end(s.drop_last())
    } else {
        s
    }
}

/// `s` without the line breaks at its two ends; other white space stays.
pub open spec fn trim_breaks(s: Seq<char>) -> Seq<char> {
    trim_breaks_end(trim_breaks_start(s))
}

/// The characters of `v` without the line breaks at its two ends.
pub fn trim_breaks_chars(v: &Vec<char>) -> (r: Vec<char>)
    ensures
        r@ == trim_breaks(v@),
{
    let n = v.len();
    let mut i: usize = 0;
    assert(v@.subrange(0, n as int) =~= v@);
    while i < n && v[i] == '\n'
        invariant
            i <= n == v.len(),
            trim_breaks_start(v@) == trim_breaks_start(v@.subrange(i as int, n as int)),
        decreases n - i,
    {
        assert(v@.subrange(i as int, n as int).drop_first() =~= v@.subrange(i + 1, n as int));
        assert(v@.subrange(i as int, n as int)[0] == v@[i as int]);
        i = i + 1;
    }
    assert(trim_breaks_start(v@) == v@.subrange(i as int, n as int)) by {
        if i < n {
            assert(v@.subrange(i as int, n as int)[0] == v@[i as int]);
        }
    }
    let mut j: usize = n;
    while j > i && v[j - 1] == '\n'
        invariant
            i <= j <= n == v.len(),
            trim_breaks(v@) == trim_breaks_end(v@.subrange(i as int, j as int)),
        decreases j - i,
    {
        assert(v@.subrange(i as int, j as int).drop_last() =~= v@.subrange(i as int, j - 1));
        j = j - 1;
    }
    assert(trim_breaks(v@) == v@.subrange(i as int, j as int));
    let mut r: Vec<char> = Vec::new();
    let mut k: usize = i;
    while k < j
        invariant
            i <= k <= j <= v.len(),
            r@ == v@.subrange(i as int, k as int),
        decreases j - k,
    {
        r.push(v[k]);
        assert(r@ =~= v@.subrange(i as int, k + 1));
        k = k + 1;
    }
    r
}

} // verus!
