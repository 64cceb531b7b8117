use vstd::prelude::*;
use vstd::utf8::*;

verus! {

/// `needle` occurs in `hay` at position `i`.
pub open spec fn occurs_at<T>(hay: Seq<T>, needle: Seq<T>, i: int) -> bool {
    &&& 0 <= i
    &&& i + needle.len() <= hay.len()
    &&& hay.subrange(i, i + needle.len()) == needle
}

/// The first position at or after `from` where `needle` occurs in `hay`.
pub open spec fn first_occurrence_from<T>(hay: Seq<T>, needle: Seq<T>, from: int) -> Option<int>
    decreases hay.len() + 1 - from,
{
    if from < 0 || from + needle.len() > hay.len() {
        None
    } else if occurs_at(hay, needle, from) {
        Some(from)
    } else {
        first_occurrence_from(hay, needle, from + 1)
    }
}

/// The first position where `needle` occurs in `hay`, if any.
pub open spec fn first_occurrence<T>(hay: Seq<T>, needle: Seq<T>) -> Option<int> {
    first_occurrence_from(hay, needle, 0)
}

/// `first_occurrence_from` finds exactly the smallest position at or after `from`.
pub proof fn lemma_first_occurrence_from<T>(hay: Seq<T>, needle: Seq<T>, from: int)
    requires
        0 <= from,
    ensures
        first_occurrence_from(hay, needle, from) matches Some(i) ==> {
            &&& from <= i
            &&& occurs_at(hay, needle, i)
            &&& forall|j: int| from <= j < i ==> !occurs_at(hay, needle, j)
        },
        first_occurrence_from(hay, needle, from) is None ==> forall|j: int|
            from <= j ==> !occurs_at(hay, needle, j),
    decreases hay.len() + 1 - from,
{
    if from + needle.len() > hay.len() {
    } else if occurs_at(hay, needle, from) {
    } else {
        lemma_first_occurrence_from(hay, needle, from + 1);
    }
}

/// Whether `needle` occurs in `hay` at position `i`.
fn bytes_occur_at(hay: &[u8], needle: &[u8], i: usize) -> (res: bool)
    requires
        i + needle@.len() <= hay@.len(),
    ensures
        res == occurs_at(hay@, needle@, i as int),
{
    let n = needle.len();
    let len = hay.len();
    let mut k: usize = 0;
    while k < n
        invariant
            k <= n,
            len == hay@.len(),
            n == needle@.len(),
            i + n <= hay@.len(),
            forall|j: int| 0 <= j < k ==> hay@[i + j] == needle@[j],
        decreases n - k,
    {
        if hay[i + k] != needle[k] {
            assert(hay@.subrange(i as int, i + n)[k as int] != needle@[k as int]);
            return false;
        }
        k = k + 1;
    }
    assert(hay@.subrange(i as int, i + n) =~= needle@);
    true
}

/// The position of the first occurrence of `needle` in `haystack`.
pub fn find_bytes(haystack: &[u8], needle: &[u8]) -> (res: Option<usize>)
    requires
        needle@.len() > 0,
    ensures
        res matches Some(i) ==> first_occurrence(haystack@, needle@) == Some(i as int),
        res is None ==> first_occurrence(haystack@, needle@) is None,
        res matches Some(i) ==> occurs_at(haystack@, needle@, i as int) && forall|j: int|
            0 <= j < i ==> !occurs_at(haystack@, needle@, j),
        res is None ==> forall|j: int| !occurs_at(haystack@, needle@, j),
{
    proof {
        lemma_first_occurrence_from(haystack@, needle@, 0);
    }
    let n = needle.len();
    let len = haystack.len();
    if n > len {
        return None;
    }
    let mut i: usize = 0;
    while i <= len - n
        invariant
            n == needle@.len(),
            len == haystack@.len(),
            0 < n <= len,
            i <= len - n + 1,
            first_occurrence_from(haystack@, needle@, i as int) == first_occurrence(
                haystack@,
                needle@,
            ),
        decreases len - i,
    {
        if bytes_occur_at(haystack, needle, i) {
            assert(first_occurrence_from(haystack@, needle@, i as int) == Some(i as int));
            proof {
                lemma_first_occurrence_from(haystack@, needle@, 0);
            }
            return Some(i);
        }
        i = i + 1;
    }
    assert(first_occurrence_from(haystack@, needle@, i as int) is None);
    None
}

/// The position of the first `x` in `s` at or after `from`.
pub open spec fn index_of_from<T>(s: Seq<T>, x: T, from: int) -> Option<int>
    decreases s.len() - from,
{
    if from < 0 || from >= s.len() {
        None
    } else if s[from] == x {
        Some(from)
    } else {
        index_of_from(s, x, from + 1)
    }
}

/// The position of the first `x` in `s`.
pub open spec fn index_of<T>(s: Seq<T>, x: T) -> Option<int> {
    index_of_from(s, x, 0)
}

/// The part of `s` before the first `x`, or all of `s` when it holds no `x`.
pub open spec fn prefix_before<T>(s: Seq<T>, x: T) -> Seq<T> {
    match index_of(s, x) {
        Some(i) => s.take(i),
        None => s,
    }
}

/// `index_of_from` finds exactly the first `x` at or after `from`.
pub proof fn lemma_index_of_from<T>(s: Seq<T>, x: T, from: int)
    requires
        0 <= from,
    ensures
        index_of_from(s, x, from) matches Some(i) ==> from <= i < s.len() && s[i] == x && (
        forall|j: int| from <= j < i ==> s[j] != x),
        index_of_from(s, x, from) is None ==> forall|j: int| from <= j < s.len() ==> s[j] != x,
    decreases s.len() - from,
{
    if from < s.len() && s[from] != x {
        lemma_index_of_from(s, x, from + 1);
    }
}

/// The position of the first `x` in `s`.
pub fn byte_position(s: &[u8], x: u8) -> (res: Option<usize>)
    ensures
        res matches Some(i) ==> index_of(s@, x) == Some(i as int),
        res is None ==> index_of(s@, x) is None,
{
    let len = s.len();
    let mut i: usize = 0;
    while i < len
        invariant
            len == s@.len(),
            i <= len,
            index_of_from(s@, x, i as int) == index_of(s@, x),
        decreases len - i,
    {
        if s[i] == x {
            return Some(i);
        }
        i = i + 1;
    }
    None
}

/// The bytes of `s` before the first `x`, or all of them when there is no `x`.
pub fn bytes_before<'a>(s: &'a [u8], x: u8) -> (res: &'a [u8])
    ensures
        res@ == prefix_before(s@, x),
{
    proof {
        lemma_index_of_from(s@, x, 0);
    }
    match byte_position(s, x) {
        Some(i) => {
            let r = vstd::slice::slice_subrange(s, 0, i);
            assert(r@ =~= s@.take(i as int));
            r
        },
        None => {
            let r = vstd::slice::slice_subrange(s, 0, s.len());
            assert(r@ =~= s@);
            r
        },
    }
}

/// `std::str::from_utf8`: succeeds exactly when the bytes are valid UTF-8,
/// and the text it gives back is the text those bytes encode.
#[verifier::external_body]
pub(crate) fn utf8_str(bytes: &[u8]) -> (res: Option<&str>)
    ensures
        res is Some <==> valid_utf8(bytes@),
        res matches Some(s) ==> s@ == decode_utf8(bytes@),
{
    std::str::from_utf8(bytes).ok()
}

/// The position of the last `x` among the first `k` items of `s`.
pub open spec fn last_index_before<T>(s: Seq<T>, x: T, k: int) -> Option<int>
    decreases k,
{
    if k <= 0 || k > s.len() {
        None
    } else if s[k - 1] == x {
        Some(k - 1)
    } else {
        last_index_before(s, x, k - 1)
    }
}

/// The position of the last `x` in `s`.
pub open spec fn last_index_of<T>(s: Seq<T>, x: T) -> Option<int> {
    last_index_before(s, x, s.len() as int)
}

/// `s` with every `x` left out.
pub open spec fn without<T>(s: Seq<T>, x: T) -> Seq<T>
    decreases s.len(),
{
    if s.len() == 0 {
        s
    } else if s.last() == x {
        without(s.drop_last(), x)
    } else {
        without(s.drop_last(), x).push(s.last())
    }
}

/// `without` keeps no `x` and keeps everything else in order.
pub proof fn lemma_without_excludes<T>(s: Seq<T>, x: T)
    ensures
        !without(s, x).contains(x),
    decreases s.len(),
{
    if s.len() > 0 {
        lemma_without_excludes(s.drop_last(), x);
        let w = without(s.drop_last(), x);
        if s.last() != x {
            assert forall|i: int| 0 <= i < w.push(s.last()).len() implies w.push(s.last())[i] != x by {
                if i < w.len() {
                    assert(w[i] != x);
                }
            }
        }
    }
}

/// Valid UTF-8 without a given ASCII byte decodes to text without that character.
pub proof fn lemma_decode_avoids_ascii(b: Seq<u8>, x: u8)
    requires
        valid_utf8(b),
        x <= 0x7f,
        !b.contains(x),
    ensures
        !decode_utf8(b).contains(x as char),
    decreases b.len(),
{
    if b.len() > 0 {
        let rest = pop_first_scalar(b);
        let len1 = length_of_first_scalar(b);
        assert(!rest.contains(x)) by {
            if rest.contains(x) {
                let k = choose|k: int| 0 <= k < rest.len() && rest[k] == x;
                assert(b[k + len1] == x);
            }
        }
        lemma_decode_avoids_ascii(rest, x);
        let v = decode_first_scalar(b);
        let b0 = b[0];
        assert(v != x as u32) by {
            if is_leading_byte_width_1(b0) {
                assert(b0 <= 0x7f ==> (b0 & 0x7F) == b0) by (bit_vector);
                assert(b.contains(b0));
            }
        }
        let d = decode_utf8(b);
        assert(d == seq![v as char] + decode_utf8(rest));
        assert(v <= 0x10ffff) by {
            let b1 = b[1];
            if is_leading_byte_width_1(b0) {
                assert((b0 & 0x7F) as u32 <= 0x7f) by (bit_vector);
            } else if is_leading_byte_width_2(b0) {
                assert((((b0 & 0x1F) as u32) << 6u32) | ((b1 & 0x3f) as u32) <= 0x7ff)
                    by (bit_vector);
            } else if is_leading_byte_width_3(b0) {
                let b2 = b[2];
                assert((((b0 & 0x0F) as u32) << 12u32) | (((b1 & 0x3f) as u32) << 6u32) | ((b2
                    & 0x3f) as u32) <= 0xffff) by (bit_vector);
            }
        }
        assert((v as char) as u32 == v);
        assert forall|i: int| 0 <= i < d.len() implies d[i] != x as char by {
            if i > 0 {
                assert(d[i] == decode_utf8(rest)[i - 1]);
            }
        }
    }
}

} // verus!
