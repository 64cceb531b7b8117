use vstd::prelude::*;
use vstd::string::*;
use crate::bytes::{index_of_from, lemma_index_of_from, occurs_at};

verus! {

/// `s` ends with `suffix`.
pub open spec fn ends_with<T>(s: Seq<T>, suffix: Seq<T>) -> bool {
    suffix.len() <= s.len() && s.subrange(s.len() - suffix.len(), s.len() as int) == suffix
}

/// `needle` occurs somewhere in `s`.
pub open spec fn contains_seq<T>(s: Seq<T>, needle: Seq<T>) -> bool {
    exists|i: int| occurs_at(s, needle, i)
}

/// `s` without the run of `c` at its end.
pub open spec fn trim_end<T>(s: Seq<T>, c: T) -> Seq<T>
    decreases s.len(),
{
    if s.len() > 0 && s.last() == c {
        trim_end(s.drop_last(), c)
    } else {
        s
    }
}

/// The non-empty pieces of `s[start..]` between occurrences of `sep`, in order.
pub open spec fn pieces_from<T>(s: Seq<T>, sep: T, start: int) -> Seq<Seq<T>>
    decreases s.len() - start,
{
    if start < 0 || start >= s.len() {
        seq![]
    } else {
        let end = match index_of_from(s, sep, start) {
            Some(e) => e,
            None => s.len() as int,
        };
        let piece = s.subrange(start, end);
        let rest = if end < start || end >= s.len() {
            seq![]
        } else {
            pieces_from(s, sep, end + 1)
        };
        if piece.len() == 0 {
            rest
        } else {
            seq![piece] + rest
        }
    }
}

/// The non-empty pieces of `s` between occurrences of `sep`, in order
/// (what `s.split(sep).filter(|p| !p.is_empty())` yields).
pub open spec fn nonempty_pieces<T>(s: Seq<T>, sep: T) -> Seq<Seq<T>> {
    pieces_from(s, sep, 0)
}

/// The views of a sequence of strings.
pub open spec fn string_views(v: Seq<String>) -> Seq<Seq<char>> {
    v.map_values(|x: String| x@)
}

/// The characters of `s`, one by one.
pub fn char_vec(s: &str) -> (res: Vec<char>)
    ensures
        res@ == s@,
{
    let n = s.unicode_len();
    let mut v: Vec<char> = Vec::new();
    let mut i: usize = 0;
    while i < n
        invariant
            n == s@.len(),
            i <= n,
            v@ == s@.take(i as int),
        decreases n - i,
    {
        let c = s.get_char(i);
        v.push(c);
        i = i + 1;
        assert(v@ =~= s@.take(i as int));
    }
    assert(v@ =~= s@);
    v
}

/// The concatenation of `a` and `b`.
pub fn concat_str(a: &str, b: &str) -> (res: String)
    ensures
        res@ == a@ + b@,
{
    let mut r = String::from_str(a);
    r.append(b);
    r
}

/// The concatenation of `a`, `b` and `c`.
pub fn concat3(a: &str, b: &str, c: &str) -> (res: String)
    ensures
        res@ == a@ + b@ + c@,
{
    let mut r = String::from_str(a);
    r.append(b);
    r.append(c);
    r
}

/// Whether `s` ends with `suffix`.
pub fn str_ends_with(s: &str, suffix: &str) -> (res: bool)
    ensures
        res == ends_with(s@, suffix@),
{
    let sv = char_vec(s);
    let fv = char_vec(suffix);
    let n = sv.len();
    let m = fv.len();
    if m > n {
        return false;
    }
    let off = n - m;
    let mut k: usize = 0;
    while k < m
        invariant
            n == sv@.len(),
            m == fv@.len(),
            m <= n,
            sv@ == s@,
            fv@ == suffix@,
            off == n - m,
            k <= m,
            forall|j: int| 0 <= j < k ==> sv@[off + j] == fv@[j],
        decreases m - k,
    {
        if sv[off + k] != fv[k] {
            assert(s@.subrange(off as int, n as int)[k as int] != suffix@[k as int]);
            return false;
        }
        k = k + 1;
    }
    assert(s@.subrange(off as int, n as int) =~= suffix@);
    true
}

/// Whether `needle` occurs in `hay` at position `i`.
fn chars_occur_at(hay: &Vec<char>, needle: &Vec<char>, i: usize) -> (res: bool)
    requires
        i + needle@.len() <= hay@.len(),
    ensures
        res == occurs_at(hay@, needle@, i as int),
{
    let n = needle.len();
    let len = hay.len();
    let mut k: usize = 0;
    while k < n
        invariant
            k <= n,
            len == hay@.len(),
            n == needle@.len(),
            i + n <= len,
            forall|j: int| 0 <= j < k ==> hay@[i + j] == needle@[j],
        decreases n - k,
    {
        if hay[i + k] != needle[k] {
            assert(hay@.subrange(i as int, i + n)[k as int] != needle@[k as int]);
            return false;
        }
        k = k + 1;
    }
    assert(hay@.subrange(i as int, i + n) =~= needle@);
    true
}

/// Whether `needle` occurs somewhere in `s`.
pub fn str_contains(s: &str, needle: &str) -> (res: bool)
    ensures
        res == contains_seq(s@, needle@),
{
    let hv = char_vec(s);
    let nv = char_vec(needle);
    let len = hv.len();
    let n = nv.len();
    if n == 0 {
        assert(s@.subrange(0, 0) =~= needle@);
        assert(occurs_at(s@, needle@, 0));
        return true;
    }
    if n > len {
        return false;
    }
    let mut i: usize = 0;
    while i <= len - n
        invariant
            len == hv@.len(),
            n == nv@.len(),
            hv@ == s@,
            nv@ == needle@,
            0 < n <= len,
            i <= len - n + 1,
            forall|j: int| 0 <= j < i ==> !occurs_at(s@, needle@, j),
        decreases len - i,
    {
        if chars_occur_at(&hv, &nv, i) {
            return true;
        }
        i = i + 1;
    }
    assert forall|j: int| !occurs_at(s@, needle@, j) by {}
    false
}

/// `s` with the run of `c` at its end removed.
pub fn trim_end_char(s: &str, c: char) -> (res: String)
    ensures
        res@ == trim_end(s@, c),
{
    let v = char_vec(s);
    let mut k: usize = v.len();
    assert(s@.take(k as int) =~= s@);
    while k > 0 && v[k - 1] == c
        invariant
            v@ == s@,
            k <= v@.len(),
            trim_end(s@, c) == trim_end(s@.take(k as int), c),
        decreases k,
    {
        assert(s@.take(k as int).drop_last() =~= s@.take(k - 1));
        k = k - 1;
    }
    let r = s.substring_char(0, k);
    proof {
        if k > 0 {
            assert(s@.take(k as int).last() == v@[k - 1]);
        }
        assert(s@.subrange(0, k as int) =~= s@.take(k as int));
    }
    r.to_owned()
}

/// The non-empty pieces of `s` between occurrences of `sep`, in order.
pub fn split_nonempty(s: &str, sep: char) -> (res: Vec<String>)
    ensures
        string_views(res@) == nonempty_pieces(s@, sep),
{
    let v = char_vec(s);
    let len = v.len();
    let mut out: Vec<String> = Vec::new();
    let mut start: usize = 0;
    while start < len
        invariant
            v@ == s@,
            len == s@.len(),
            start <= len,
            string_views(out@) + pieces_from(s@, sep, start as int) == nonempty_pieces(s@, sep),
        decreases len - start,
    {
        let mut end = start;
        while end < len && v[end] != sep
            invariant
                v@ == s@,
                len == s@.len(),
                start <= end <= len,
                index_of_from(s@, sep, end as int) == index_of_from(s@, sep, start as int),
            decreases len - end,
        {
            end = end + 1;
        }
        proof {
            lemma_index_of_from(s@, sep, start as int);
            if end < len {
                assert(index_of_from(s@, sep, end as int) == Some(end as int));
            } else {
                assert(index_of_from(s@, sep, end as int) is None);
            }
        }
        let ghost old_out = out@;
        if end > start {
            let piece = s.substring_char(start, end);
            out.push(piece.to_owned());
            assert(string_views(out@) =~= string_views(old_out) + seq![s@.subrange(start as int, end as int)]);
        }
        start = if end < len { end + 1 } else { len };
        proof {
            if end >= len {
                assert(pieces_from(s@, sep, end + 1) == Seq::<Seq<char>>::empty());
            }
        }
    }
    assert(string_views(out@) + Seq::<Seq<char>>::empty() =~= string_views(out@));
    out
}

} // verus!
