//! Properties that hold across the library's functions.
use vstd::prelude::*;
use vstd::utf8::*;
use crate::bytes::{
    lemma_decode_avoids_ascii, lemma_index_of_from, lemma_without_excludes,
    prefix_before, without, last_index_of,
};
use crate::files::paths_matching;
use crate::ini::{
    category_values, find_section, find_value, section_index_from, value_from, values_ending_with,
    SectionView,
};
use crate::iso::{
    component_name, find_named, lemma_prefix_before_ascii_valid, named_index_from, record_name,
    spec_parse_entry, EntryView,
};
use crate::ppsspp::{
    merge_paths, spec_param_title, title_area_end, title_key, zero_run_end_from, zero_run_ends_at,
};
use crate::bytes::{first_occurrence, index_of, last_index_before, lemma_first_occurrence_from, occurs_at};
use crate::text::{contains_seq, ends_with, nonempty_pieces, pieces_from, trim_end};

verus! {

/// Every value listed from a section is non-empty, ends with the suffix asked
/// for, and is one of the section's values.
pub proof fn law_category_values_filtered(
    doc: Seq<SectionView>,
    category: Seq<char>,
    suffix: Seq<char>,
)
    ensures
        forall|i: int|
            0 <= i < category_values(doc, category, suffix).len() ==> {
                let v = #[trigger] category_values(doc, category, suffix)[i];
                &&& v.len() > 0
                &&& ends_with(v, suffix)
                &&& find_section(doc, category) matches Some(entries) && exists|j: int|
                    0 <= j < entries.len() && entries[j].1 == v
            },
{
    if let Some(entries) = find_section(doc, category) {
        lemma_values_ending_with(entries, suffix);
    }
}

proof fn lemma_values_ending_with(entries: Seq<(Seq<char>, Seq<char>)>, suffix: Seq<char>)
    ensures
        forall|i: int|
            0 <= i < values_ending_with(entries, suffix).len() ==> {
                let v = #[trigger] values_ending_with(entries, suffix)[i];
                &&& v.len() > 0
                &&& ends_with(v, suffix)
                &&& exists|j: int| 0 <= j < entries.len() && entries[j].1 == v
            },
    decreases entries.len(),
{
    if entries.len() > 0 {
        let init = entries.drop_last();
        lemma_values_ending_with(init, suffix);
        let before = values_ending_with(init, suffix);
        let all = values_ending_with(entries, suffix);
        assert forall|i: int| 0 <= i < all.len() implies {
            let v = #[trigger] all[i];
            &&& v.len() > 0
            &&& ends_with(v, suffix)
            &&& exists|j: int| 0 <= j < entries.len() && entries[j].1 == v
        } by {
            if i < before.len() {
                assert(all[i] == before[i]);
                let v = before[i];
                let j = choose|j: int| 0 <= j < init.len() && init[j].1 == v;
                assert(entries[j] == init[j]);
            } else {
                assert(entries[entries.len() - 1].1 == all[i]);
            }
        }
    }
}

/// Every path kept from a listing holds the search text and was listed.
pub proof fn law_listing_filtered(paths: Seq<Seq<char>>, search: Seq<char>)
    ensures
        forall|i: int|
            0 <= i < paths_matching(paths, Some(search)).len() ==> {
                let p = #[trigger] paths_matching(paths, Some(search))[i];
                &&& contains_seq(p, search)
                &&& paths.contains(p)
            },
    decreases paths.len(),
{
    if paths.len() > 0 {
        let init = paths.drop_last();
        law_listing_filtered(init, search);
        let before = paths_matching(init, Some(search));
        let all = paths_matching(paths, Some(search));
        assert forall|i: int| 0 <= i < all.len() implies {
            let p = #[trigger] all[i];
            &&& contains_seq(p, search)
            &&& paths.contains(p)
        } by {
            if i < before.len() {
                assert(all[i] == before[i]);
                let j = choose|j: int| 0 <= j < init.len() && init[j] == before[i];
                assert(paths[j] == init[j]);
            } else {
                assert(paths[paths.len() - 1] == all[i]);
            }
        }
    }
}

/// Merging game lists keeps the first list as it is, at the front; every
/// game of the second list ends up in the result; and every game in the
/// result comes from one of the two lists.
pub proof fn law_merge_paths(listed: Seq<Seq<char>>, rest: Seq<Seq<char>>)
    ensures
        merge_paths(listed, rest).len() >= listed.len(),
        merge_paths(listed, rest).take(listed.len() as int) == listed,
        forall|i: int| 0 <= i < rest.len() ==> merge_paths(listed, rest).contains(#[trigger] rest[i]),
        forall|i: int|
            0 <= i < merge_paths(listed, rest).len() ==> listed.contains(
                #[trigger] merge_paths(listed, rest)[i],
            ) || rest.contains(merge_paths(listed, rest)[i]),
    decreases rest.len(),
{
    if rest.len() > 0 {
        let next = if listed.contains(rest[0]) {
            listed
        } else {
            listed.push(rest[0])
        };
        let tail = rest.drop_first();
        law_merge_paths(next, tail);
        let m = merge_paths(listed, rest);
        assert(m == merge_paths(next, tail));
        assert(next.contains(rest[0])) by {
            if !listed.contains(rest[0]) {
                assert(next[listed.len() as int] == rest[0]);
            }
        }
        assert(m.take(listed.len() as int) =~= listed) by {
            assert(m.take(next.len() as int) == next);
            assert forall|k: int| 0 <= k < listed.len() implies m[k] == listed[k] by {
                assert(m.take(next.len() as int)[k] == next[k]);
            }
        }
        assert forall|i: int| 0 <= i < rest.len() implies m.contains(#[trigger] rest[i]) by {
            if i == 0 {
                let k = choose|k: int| 0 <= k < next.len() && next[k] == rest[0];
                assert(m.take(next.len() as int)[k] == next[k]);
            } else {
                assert(rest[i] == tail[i - 1]);
            }
        }
        assert forall|i: int| 0 <= i < m.len() implies listed.contains(#[trigger] m[i])
            || rest.contains(m[i]) by {
            if next.contains(m[i]) {
                let k = choose|k: int| 0 <= k < next.len() && next[k] == m[i];
                if k >= listed.len() {
                    assert(rest[0] == m[i]);
                } else {
                    assert(listed[k] == m[i]);
                }
            } else {
                let k = choose|k: int| 0 <= k < tail.len() && tail[k] == m[i];
                assert(rest[k + 1] == m[i]);
            }
        }
    }
}

/// A path component is never empty and never holds the separator.
pub proof fn law_path_pieces(s: Seq<char>, sep: char)
    ensures
        forall|i: int|
            0 <= i < nonempty_pieces(s, sep).len() ==> {
                let p = #[trigger] nonempty_pieces(s, sep)[i];
                &&& p.len() > 0
                &&& !p.contains(sep)
            },
{
    lemma_pieces_from(s, sep, 0);
}

proof fn lemma_pieces_from(s: Seq<char>, sep: char, start: int)
    requires
        0 <= start,
    ensures
        forall|i: int|
            0 <= i < pieces_from(s, sep, start).len() ==> {
                let p = #[trigger] pieces_from(s, sep, start)[i];
                &&& p.len() > 0
                &&& !p.contains(sep)
            },
    decreases s.len() - start,
{
    if start < s.len() {
        lemma_index_of_from(s, sep, start);
        let end = match crate::bytes::index_of_from(s, sep, start) {
            Some(e) => e,
            None => s.len() as int,
        };
        let piece = s.subrange(start, end);
        if end < s.len() {
            lemma_pieces_from(s, sep, end + 1);
        }
        let all = pieces_from(s, sep, start);
        let rest = if end >= s.len() {
            Seq::<Seq<char>>::empty()
        } else {
            pieces_from(s, sep, end + 1)
        };
        assert forall|i: int| 0 <= i < all.len() implies {
            let p = #[trigger] all[i];
            &&& p.len() > 0
            &&& !p.contains(sep)
        } by {
            if piece.len() > 0 && i == 0 {
                assert(all[0] == piece);
                assert forall|k: int| 0 <= k < piece.len() implies piece[k] != sep by {
                    assert(piece[k] == s[start + k]);
                }
            } else if piece.len() > 0 {
                assert(all[i] == rest[i - 1]);
            } else {
                assert(all[i] == rest[i]);
            }
        }
    }
}

/// A recorded name, once read, holds no `;`.
pub proof fn law_identifier_has_no_semicolon(rec: Seq<u8>)
    ensures
        spec_parse_entry(rec) matches Ok(e) ==> !e.identifier.contains(';'),
{
    if let Ok(e) = spec_parse_entry(rec) {
        let raw = record_name(rec);
        let name = prefix_before(raw, 0x3Bu8);
        lemma_prefix_before_ascii_valid(raw, 0x3Bu8);
        lemma_index_of_from(raw, 0x3Bu8, 0);
        assert(!name.contains(0x3Bu8)) by {
            if name.contains(0x3Bu8) {
                let k = choose|k: int| 0 <= k < name.len() && name[k] == 0x3Bu8;
                assert(raw[k] == 0x3Bu8);
            }
        }
        lemma_decode_avoids_ascii(name, 0x3Bu8);
        assert((0x3Bu8 as char) == ';');
    }
}

/// The title read from `PARAM.SFO` data never holds a NUL character.
pub proof fn law_title_has_no_nul(data: Seq<u8>)
    ensures
        !spec_param_title(data).contains('\0'),
{
    if let Some(pos) = first_occurrence(data, title_key()) {
        let content = trim_end(
            data.subrange(pos + title_key().len(), title_area_end(data, pos)),
            0u8,
        );
        if let Some(m) = last_index_of(content, 0x80u8) {
            let cleaned = without(content.skip(m + 1), 0u8);
            if valid_utf8(cleaned) {
                lemma_without_excludes(content.skip(m + 1), 0u8);
                lemma_decode_avoids_ascii(cleaned, 0u8);
                assert((0u8 as char) == '\0');
            }
        }
    }
}

/// No game is listed twice.
pub open spec fn no_duplicates(s: Seq<Seq<char>>) -> bool {
    forall|i: int, j: int| 0 <= i < j < s.len() ==> s[i] != s[j]
}

/// Merging game lists adds no duplicate: when the first list holds none,
/// neither does the result.
pub proof fn law_merge_paths_no_duplicates(listed: Seq<Seq<char>>, rest: Seq<Seq<char>>)
    requires
        no_duplicates(listed),
    ensures
        no_duplicates(merge_paths(listed, rest)),
    decreases rest.len(),
{
    if rest.len() > 0 {
        let tail = rest.drop_first();
        if listed.contains(rest[0]) {
            law_merge_paths_no_duplicates(listed, tail);
        } else {
            let next = listed.push(rest[0]);
            assert forall|i: int, j: int| 0 <= i < j < next.len() implies next[i] != next[j] by {
                if j == listed.len() {
                    assert(next[i] == listed[i]);
                }
            }
            law_merge_paths_no_duplicates(next, tail);
        }
    }
}

/// Where a path leads from `current` when each directory `d` lists
/// `dirs(d)`: each component in turn names an entry of the directory reached
/// so far; a file reached before the last component leads nowhere.
pub open spec fn resolve(
    dirs: spec_fn(EntryView) -> Seq<EntryView>,
    current: EntryView,
    components: Seq<Seq<char>>,
) -> Option<EntryView>
    decreases components.len(),
{
    if components.len() == 0 {
        Some(current)
    } else if !current.is_dir {
        None
    } else {
        match find_named(dirs(current), components[0]) {
            Some(e) => resolve(dirs, e, components.drop_first()),
            None => None,
        }
    }
}

/// Each move of a path lookup keeps where the path leads: with all
/// components resolved the lookup has found its target; a file reached too
/// early, or a missing name, means the path leads nowhere; and entering the
/// named entry leaves the destination of the remaining components unchanged.
/// So driving `PathLookup::step` and `PathLookup::enter` from the root ends
/// with `resolve` of the root and all components.
pub proof fn law_lookup_follows_resolution(
    dirs: spec_fn(EntryView) -> Seq<EntryView>,
    components: Seq<Seq<char>>,
    position: int,
    current: EntryView,
)
    requires
        0 <= position <= components.len(),
    ensures
        position == components.len() ==> resolve(dirs, current, components.skip(position))
            == Some(current),
        position < components.len() && !current.is_dir ==> resolve(
            dirs,
            current,
            components.skip(position),
        ) is None,
        position < components.len() && current.is_dir ==> match find_named(
            dirs(current),
            components[position],
        ) {
            Some(e) => resolve(dirs, current, components.skip(position)) == resolve(
                dirs,
                e,
                components.skip(position + 1),
            ),
            None => resolve(dirs, current, components.skip(position)) is None,
        },
{
    let rest = components.skip(position);
    if position < components.len() {
        assert(rest[0] == components[position]);
        assert(rest.drop_first() =~= components.skip(position + 1));
    } else {
        assert(rest.len() == 0);
    }
}

/// The first `x` in `a + b` sits right after `a` when `a` holds no `x` and
/// `b` starts with one.
proof fn lemma_index_of_concat<T>(a: Seq<T>, b: Seq<T>, x: T)
    requires
        !a.contains(x),
        b.len() > 0,
        b[0] == x,
    ensures
        index_of(a + b, x) == Some(a.len() as int),
{
    let c = a + b;
    lemma_index_of_from(c, x, 0);
    assert(c[a.len() as int] == x);
    match index_of(c, x) {
        Some(i) => {
            if i < a.len() {
                assert(a[i] == c[i]);
            }
        },
        None => {},
    }
}

/// A read name is the text of the recorded name up to its first `;`, as
/// `split(';').next()` gives it.
pub proof fn law_identifier_is_text_before_semicolon(rec: Seq<u8>)
    ensures
        spec_parse_entry(rec) matches Ok(e) ==> e.identifier == prefix_before(
            decode_utf8(record_name(rec)),
            ';',
        ),
{
    if let Ok(e) = spec_parse_entry(rec) {
        let raw = record_name(rec);
        let text = decode_utf8(raw);
        law_identifier_has_no_semicolon(rec);
        lemma_index_of_from(raw, 0x3Bu8, 0);
        lemma_prefix_before_ascii_valid(raw, 0x3Bu8);
        match index_of(raw, 0x3Bu8) {
            Some(k) => {
                is_char_boundary_iff_is_leading_byte(raw, k);
                decode_utf8_split(raw, k);
                valid_utf8_split(raw, k);
                let tail = raw.subrange(k, raw.len() as int);
                assert(tail[0] == 0x3Bu8);
                assert((0x3Bu8 & 0x7F) == 0x3Bu8) by (bit_vector);
                assert(decode_utf8(tail)[0] == ';');
                assert(raw.take(k) =~= raw.subrange(0, k));
                lemma_index_of_concat(decode_utf8(raw.subrange(0, k)), decode_utf8(tail), ';');
                assert(text.take(decode_utf8(raw.subrange(0, k)).len() as int) =~= decode_utf8(
                    raw.subrange(0, k),
                ));
            },
            None => {
                assert(!raw.contains(0x3Bu8)) by {
                    if raw.contains(0x3Bu8) {
                        let j = choose|j: int| 0 <= j < raw.len() && raw[j] == 0x3Bu8;
                    }
                }
                lemma_decode_avoids_ascii(raw, 0x3Bu8);
                lemma_index_of_from(text, ';', 0);
                assert((0x3Bu8 as char) == ';');
                match index_of(text, ';') {
                    Some(i) => {
                        assert(text.contains(';'));
                    },
                    None => {},
                }
            },
        }
    }
}

proof fn lemma_named_index_from(entries: Seq<EntryView>, name: Seq<char>, from: int)
    requires
        0 <= from,
    ensures
        named_index_from(entries, name, from) matches Some(i) ==> from <= i < entries.len()
            && component_name(entries[i].identifier) == name && forall|j: int|
            from <= j < i ==> component_name(entries[j].identifier) != name,
        named_index_from(entries, name, from) is None ==> forall|j: int|
            from <= j < entries.len() ==> component_name(entries[j].identifier) != name,
    decreases entries.len() - from,
{
    if from < entries.len() && component_name(entries[from].identifier) != name {
        lemma_named_index_from(entries, name, from + 1);
    }
}

/// Looking a name up in a directory finds the first entry whose name, read
/// as a path component, is exactly that name; it finds nothing exactly when
/// no entry has that name.
pub proof fn law_find_named(entries: Seq<EntryView>, name: Seq<char>)
    ensures
        find_named(entries, name) matches Some(e) ==> exists|i: int|
            0 <= i < entries.len() && entries[i] == e && component_name(entries[i].identifier)
                == name && forall|j: int|
                0 <= j < i ==> component_name(entries[j].identifier) != name,
        find_named(entries, name) is None <==> forall|j: int|
            0 <= j < entries.len() ==> component_name(entries[j].identifier) != name,
{
    lemma_named_index_from(entries, name, 0);
    if let Some(i) = named_index_from(entries, name, 0) {
        assert(entries[i] == find_named(entries, name).unwrap());
    }
}

/// A parsed record's extent starts at the little-endian 32-bit block number
/// in bytes 2..6, its length is the little-endian 32-bit number in bytes
/// 10..14, and it is a directory exactly when bit 1 of byte 25 is set.
pub proof fn law_record_fields(rec: Seq<u8>)
    ensures
        spec_parse_entry(rec) matches Ok(e) ==> {
            &&& e.lba == rec[2] + 256 * rec[3] + 65536 * rec[4] + 16777216 * rec[5]
            &&& e.size == rec[10] + 256 * rec[11] + 65536 * rec[12] + 16777216 * rec[13]
            &&& e.is_dir == (rec[25] & 2 != 0)
        },
{
}

/// Listing a section's values keeps exactly, in order, the non-empty values
/// that end with the suffix: nothing else and nothing less.
pub proof fn law_category_values_complete(
    doc: Seq<SectionView>,
    category: Seq<char>,
    suffix: Seq<char>,
)
    ensures
        find_section(doc, category) matches Some(entries) ==> category_values(doc, category, suffix)
            == entries.map_values(|p: (Seq<char>, Seq<char>)| p.1).filter(
            |v: Seq<char>| v.len() > 0 && ends_with(v, suffix),
        ),
        find_section(doc, category) matches Some(entries) ==> forall|j: int|
            0 <= j < entries.len() && entries[j].1.len() > 0 && ends_with(entries[j].1, suffix)
                ==> category_values(doc, category, suffix).contains(#[trigger] entries[j].1),
        find_section(doc, category) is None ==> category_values(doc, category, suffix).len() == 0,
{
    if let Some(entries) = find_section(doc, category) {
        let pred = |v: Seq<char>| v.len() > 0 && ends_with(v, suffix);
        lemma_values_ending_with_filter(entries, suffix);
        let values = entries.map_values(|p: (Seq<char>, Seq<char>)| p.1);
        assert forall|j: int|
            0 <= j < entries.len() && entries[j].1.len() > 0 && ends_with(entries[j].1, suffix)
                implies category_values(doc, category, suffix).contains(#[trigger] entries[j].1) by {
            assert(values[j] == entries[j].1);
            values.lemma_filter_contains(pred, j);
        }
    }
}

proof fn lemma_values_ending_with_filter(entries: Seq<(Seq<char>, Seq<char>)>, suffix: Seq<char>)
    ensures
        values_ending_with(entries, suffix) == entries.map_values(
            |p: (Seq<char>, Seq<char>)| p.1,
        ).filter(|v: Seq<char>| v.len() > 0 && ends_with(v, suffix)),
    decreases entries.len(),
{
    let values = entries.map_values(|p: (Seq<char>, Seq<char>)| p.1);
    let pred = |v: Seq<char>| v.len() > 0 && ends_with(v, suffix);
    reveal(Seq::filter);
    if entries.len() > 0 {
        lemma_values_ending_with_filter(entries.drop_last(), suffix);
        assert(values.drop_last() =~= entries.drop_last().map_values(
            |p: (Seq<char>, Seq<char>)| p.1,
        ));
        assert(values.last() == entries.last().1);
    } else {
        assert(values =~= Seq::<Seq<char>>::empty());
    }
}

/// Filtering a listing keeps exactly, in order, the paths that hold the
/// search text (all of them when there is none).
pub proof fn law_listing_complete(paths: Seq<Seq<char>>, search: Option<Seq<char>>)
    ensures
        search matches Some(s) ==> paths_matching(paths, search) == paths.filter(
            |p: Seq<char>| contains_seq(p, s),
        ),
        search matches Some(s) ==> forall|i: int|
            0 <= i < paths.len() && contains_seq(paths[i], s) ==> paths_matching(
                paths,
                search,
            ).contains(#[trigger] paths[i]),
        search is None ==> paths_matching(paths, search) == paths,
    decreases paths.len(),
{
    reveal(Seq::filter);
    if paths.len() > 0 {
        law_listing_complete(paths.drop_last(), search);
        assert(paths.drop_last().push(paths.last()) =~= paths);
    }
    if let Some(s) = search {
        let pred = |p: Seq<char>| contains_seq(p, s);
        assert forall|i: int| 0 <= i < paths.len() && contains_seq(paths[i], s) implies paths_matching(
            paths,
            search,
        ).contains(#[trigger] paths[i]) by {
            paths.lemma_filter_contains(pred, i);
        }
    }
}

/// The 16 bytes of `s` from `i` on are all zero.
pub open spec fn zeros_at(s: Seq<u8>, i: int) -> bool {
    forall|j: int| i <= j < i + 16 ==> s[j] == 0u8
}

/// `n` zero bytes.
pub open spec fn zero_bytes(n: nat) -> Seq<u8> {
    Seq::new(n, |i: int| 0u8)
}

proof fn lemma_zero_run_end_is(data: Seq<u8>, pos: int, from: int, end: int)
    requires
        0 <= from <= end <= data.len(),
        forall|q: int| from <= q < end ==> !zero_run_ends_at(data, pos, q),
        end < data.len() ==> zero_run_ends_at(data, pos, end),
    ensures
        zero_run_end_from(data, pos, from) == end,
    decreases end - from,
{
    if from < end {
        lemma_zero_run_end_is(data, pos, from + 1, end);
    }
}

proof fn lemma_trim_zero_tail(s: Seq<u8>, n: nat)
    requires
        s.len() > 0,
        s.last() != 0,
    ensures
        trim_end(s + zero_bytes(n), 0u8) == s,
    decreases n,
{
    if n == 0 {
        assert(s + zero_bytes(0) =~= s);
    } else {
        let z = s + zero_bytes(n);
        assert(z.last() == 0u8);
        assert(z.drop_last() =~= s + zero_bytes((n - 1) as nat));
        lemma_trim_zero_tail(s, (n - 1) as nat);
    }
}

proof fn lemma_last_marker(s: Seq<u8>, m: int, k: int)
    requires
        0 <= m < k <= s.len(),
        s[m] == 0x80u8,
        forall|j: int| m < j < k ==> s[j] != 0x80u8,
    ensures
        last_index_before(s, 0x80u8, k) == Some(m),
    decreases k,
{
    if k - 1 > m {
        lemma_last_marker(s, m, k - 1);
    }
}

proof fn lemma_without_absent(t: Seq<u8>)
    requires
        forall|j: int| 0 <= j < t.len() ==> t[j] != 0u8,
    ensures
        without(t, 0u8) == t,
    decreases t.len(),
{
    if t.len() > 0 {
        lemma_without_absent(t.drop_last());
        assert(t.drop_last().push(t.last()) =~= t);
    }
}

/// In `PARAM.SFO` data laid out as: anything without the key, the `TITLE`
/// key, a header `h` without a run of 16 zero bytes, a 0x80 marker, the title
/// text `t` (UTF-8 without zero or 0x80 bytes), 16 zero bytes, and anything
/// after, the title read is the text of `t`, however long it is.
pub proof fn law_title_is_text_after_marker(k: Seq<u8>, h: Seq<u8>, t: Seq<u8>, r: Seq<u8>)
    requires
        forall|i: int|
            0 <= i < k.len() ==> !occurs_at(
                k + title_key() + h + seq![0x80u8] + t + zero_bytes(16) + r,
                title_key(),
                i,
            ),
        forall|i: int|
            0 <= i && i + 16 <= h.len() ==> !#[trigger] zeros_at(h, i),
        t.len() > 0,
        forall|j: int| 0 <= j < t.len() ==> t[j] != 0u8 && t[j] != 0x80u8,
        valid_utf8(t),
    ensures
        spec_param_title(k + title_key() + h + seq![0x80u8] + t + zero_bytes(16) + r)
            == decode_utf8(t),
{
    let key = title_key();
    let s = h + seq![0x80u8] + t;
    let data = k + key + h + seq![0x80u8] + t + zero_bytes(16) + r;
    let p = k.len() as int;
    let a = p + 5;
    let m = a + h.len();
    let z = m + 1 + t.len();
    let e = z + 16;
    assert(data =~= k + key + s + zero_bytes(16) + r);
    assert(data.len() == e + r.len());
    assert forall|q: int| p <= q < a implies #[trigger] data[q] == key[q - p] by {}
    assert forall|q: int| a <= q < z implies #[trigger] data[q] == s[q - a] by {}
    assert forall|q: int| z <= q < e implies #[trigger] data[q] == 0u8 by {}
    assert forall|i: int| 0 <= i < h.len() implies #[trigger] s[i] == h[i] by {}
    assert(s[h.len() as int] == 0x80u8);
    assert forall|q: int| h.len() + 1 <= q < s.len() implies #[trigger] s[q] == t[q - h.len()
        - 1] by {}
    // The key first occurs right after `k`.
    assert(data.subrange(p, p + 5) =~= key);
    assert(occurs_at(data, key, p));
    lemma_first_occurrence_from(data, key, 0);
    match first_occurrence(data, key) {
        Some(i) => {
            if i < p {
                assert(!occurs_at(data, key, i));
            }
            assert(i == p);
        },
        None => {},
    }
    assert(first_occurrence(data, key) == Some(p));
    // The title area ends after the 16 zero bytes that follow `t`.
    assert forall|q: int| p <= q < e implies !zero_run_ends_at(data, p, q) by {
        if zero_run_ends_at(data, p, q) {
            if q - 1 >= m {
                if q - 1 < z {
                    assert(data[q - 1] == s[q - 1 - a]);
                    if q - 1 == m {
                        assert(s[q - 1 - a] == 0x80u8);
                    } else {
                        assert(s[q - 1 - a] == t[q - 1 - a - h.len() - 1]);
                    }
                } else {
                    assert(data[z - 1] == s[z - 1 - a]);
                    assert(s[z - 1 - a] == t[t.len() - 1]);
                }
            } else if q - 16 >= a {
                let i0 = q - 16 - a;
                assert(!zeros_at(h, i0));
                let j = choose|j: int| i0 <= j < i0 + 16 && h[j] != 0u8;
                assert(data[a + j] == s[j]);
            } else {
                assert(data[a - 1] == key[4]);
            }
        }
    }
    if e < data.len() {
        assert(zero_run_ends_at(data, p, e));
    }
    lemma_zero_run_end_is(data, p, p, e);
    assert(title_area_end(data, p) == e);
    // The area, without its trailing zeros, is the header, the marker and `t`.
    assert(data.subrange(a, e) =~= s + zero_bytes(16));
    assert(s.last() == t.last());
    lemma_trim_zero_tail(s, 16);
    let content = trim_end(data.subrange(p + key.len(), title_area_end(data, p)), 0u8);
    assert(content == s);
    lemma_last_marker(s, h.len() as int, s.len() as int);
    assert(s.skip(h.len() + 1 as int) =~= t);
    lemma_without_absent(t);
}

proof fn lemma_section_first(doc: Seq<SectionView>, name: Seq<char>, from: int)
    requires
        0 <= from,
    ensures
        section_index_from(doc, name, from) matches Some(i) ==> from <= i < doc.len() && doc[i].0
            == Some(name) && forall|j: int| from <= j < i ==> doc[j].0 != Some(name),
        section_index_from(doc, name, from) is None ==> forall|j: int|
            from <= j < doc.len() ==> doc[j].0 != Some(name),
    decreases doc.len() - from,
{
    if from < doc.len() && doc[from].0 != Some(name) {
        lemma_section_first(doc, name, from + 1);
    }
}

proof fn lemma_value_first(entries: Seq<(Seq<char>, Seq<char>)>, key: Seq<char>, from: int)
    requires
        0 <= from,
    ensures
        value_from(entries, key, from) matches Some(v) ==> exists|i: int|
            from <= i < entries.len() && entries[i].0 == key && entries[i].1 == v && forall|j: int|
                from <= j < i ==> entries[j].0 != key,
        value_from(entries, key, from) is None ==> forall|j: int|
            from <= j < entries.len() ==> entries[j].0 != key,
    decreases entries.len() - from,
{
    if from < entries.len() && entries[from].0 != key {
        lemma_value_first(entries, key, from + 1);
    }
}

/// A section looked up by name is the first section of that name, and none
/// is found exactly when no section has it; a value looked up by key is the
/// value of the first pair with that key, and none is found exactly when no
/// pair has it.
pub proof fn law_first_section_and_value(doc: Seq<SectionView>, name: Seq<char>, key: Seq<char>)
    ensures
        find_section(doc, name) matches Some(entries) ==> exists|i: int|
            0 <= i < doc.len() && doc[i].0 == Some(name) && doc[i].1 == entries && forall|j: int|
                0 <= j < i ==> doc[j].0 != Some(name),
        find_section(doc, name) is None <==> forall|j: int|
            0 <= j < doc.len() ==> doc[j].0 != Some(name),
        find_section(doc, name) matches Some(entries) ==> (find_value(entries, key) matches Some(
            v,
        ) ==> exists|i: int|
            0 <= i < entries.len() && entries[i].0 == key && entries[i].1 == v && forall|j: int|
                0 <= j < i ==> entries[j].0 != key),
        find_section(doc, name) matches Some(entries) ==> (find_value(entries, key) is None
            <==> forall|j: int| 0 <= j < entries.len() ==> entries[j].0 != key),
{
    lemma_section_first(doc, name, 0);
    if let Some(entries) = find_section(doc, name) {
        lemma_value_first(entries, key, 0);
        let i = section_index_from(doc, name, 0).unwrap();
        assert(doc[i].1 == entries);
        if let Some(v) = find_value(entries, key) {
            assert(value_from(entries, key, 0) == Some(v));
        }
    }
}

proof fn lemma_trim_end_shape(s: Seq<char>, c: char)
    ensures
        trim_end(s, c).len() <= s.len(),
        trim_end(s, c) == s.take(trim_end(s, c).len() as int),
        trim_end(s, c).len() > 0 ==> trim_end(s, c).last() != c,
        forall|j: int| trim_end(s, c).len() <= j < s.len() ==> s[j] == c,
    decreases s.len(),
{
    if s.len() > 0 && s.last() == c {
        lemma_trim_end_shape(s.drop_last(), c);
        let r = trim_end(s, c);
        assert(r == s.drop_last().take(r.len() as int));
        assert(s.drop_last().take(r.len() as int) =~= s.take(r.len() as int));
        assert forall|j: int| r.len() <= j < s.len() implies s[j] == c by {
            if j < s.len() - 1 {
                assert(s.drop_last()[j] == s[j]);
            }
        }
    } else {
        assert(s.take(s.len() as int) =~= s);
    }
}

/// Trimming a character off the end keeps a prefix of the text that does
/// not end with that character, and removes only copies of it.
pub proof fn law_trim_end(s: Seq<char>, c: char)
    ensures
        trim_end(s, c).len() <= s.len(),
        trim_end(s, c) == s.take(trim_end(s, c).len() as int),
        trim_end(s, c).len() > 0 ==> trim_end(s, c).last() != c,
        forall|j: int| trim_end(s, c).len() <= j < s.len() ==> s[j] == c,
{
    lemma_trim_end_shape(s, c);
}

/// The part before the first `x` is a prefix without `x`, followed by `x`
/// or by the end of the sequence.
pub proof fn law_prefix_before(s: Seq<u8>, x: u8)
    ensures
        prefix_before(s, x) == s.take(prefix_before(s, x).len() as int),
        !prefix_before(s, x).contains(x),
        prefix_before(s, x).len() == s.len() || s[prefix_before(s, x).len() as int] == x,
{
    lemma_index_of_from(s, x, 0);
    let p = prefix_before(s, x);
    if let Some(i) = index_of(s, x) {
        assert(p.len() == i);
    } else {
        assert(s.take(s.len() as int) =~= s);
    }
    if p.contains(x) {
        let j = choose|j: int| 0 <= j < p.len() && p[j] == x;
        assert(s[j] == x);
    }
}

} // verus!
