use vstd::prelude::*;
use vstd::utf8::*;
use crate::bytes::utf8_str;
use crate::text::{ends_with, str_ends_with, string_views};

verus! {

/// A key and its value, as plain character sequences.
pub type PropertyView = (Seq<char>, Seq<char>);

/// A section of a settings file: its name (none for the general section) and
/// its key/value pairs in the order they were written.
pub type SectionView = (Option<Seq<char>>, Seq<PropertyView>);

/// What the `ini` crate reads out of `text`: the sections in order, each with
/// its name and its key/value pairs in order, or the line and column where
/// reading failed. When `escape` holds, `\\` is read as an escape character.
pub uninterp spec fn spec_load_ini(text: Seq<char>, escape: bool) -> Result<
    Seq<SectionView>,
    (usize, usize),
>;

/// One section of a settings file.
pub struct IniSection {
    /// The section's name; `None` for the general section.
    pub name: Option<String>,
    /// The key/value pairs in the order they were written.
    pub entries: Vec<(String, String)>,
}

/// A settings file, read into its sections.
pub struct IniDoc {
    pub sections: Vec<IniSection>,
}

/// The view of an optional name.
pub open spec fn name_view(name: Option<String>) -> Option<Seq<char>> {
    match name {
        Some(n) => Some(n@),
        None => None,
    }
}

impl View for IniSection {
    type V = SectionView;

    open spec fn view(&self) -> SectionView {
        (
            name_view(self.name),
            self.entries@.map_values(|p: (String, String)| (p.0@, p.1@)),
        )
    }
}

impl View for IniDoc {
    type V = Seq<SectionView>;

    open spec fn view(&self) -> Seq<SectionView> {
        self.sections@.map_values(|s: IniSection| s@)
    }
}

/// Why a setting could not be read.
#[derive(Debug, Clone, Copy, PartialEq, Eq, Structural)]
pub enum IniError {
    /// The settings text is malformed at this line and column.
    Parse { line: usize, col: usize },
    /// No section has the requested name.
    MissingSection,
    /// The section has no value for the requested key.
    MissingKey,
}

/// `ini::Ini::load_from_str_opt`, with `\\` read as an escape character
/// exactly when `escape` holds and the other options left at their defaults.
/// Claimed: its outcome (sections and pairs in iteration order, or the
/// position of the error) is `spec_load_ini` of the text and the flag. The
/// message of a parse error is not kept.
#[verifier::external_body]
fn load_ini(text: &str, escape: bool) -> (res: Result<IniDoc, IniError>)
    ensures
        match spec_load_ini(text@, escape) {
            Ok(d) => res matches Ok(doc) && doc@ == d,
            Err((line, col)) => res == Err::<IniDoc, IniError>(IniError::Parse { line, col }),
        },
{
    let opt = ini::ParseOption { enabled_escape: escape, ..Default::default() };
    match ini::Ini::load_from_str_opt(text, opt) {
        Ok(doc) => Ok(IniDoc {
            sections: doc.iter().map(|(name, props)| IniSection {
                name: name.map(|n| n.to_string()),
                entries: props.iter().map(|(k, v)| (k.to_string(), v.to_string())).collect(),
            }).collect(),
        }),
        Err(e) => Err(IniError::Parse { line: e.line, col: e.col }),
    }
}

/// The position of the first section at or after `from` named `name`.
pub open spec fn section_index_from(doc: Seq<SectionView>, name: Seq<char>, from: int) -> Option<int>
    decreases doc.len() - from,
{
    if from < 0 || from >= doc.len() {
        None
    } else if doc[from].0 == Some(name) {
        Some(from)
    } else {
        section_index_from(doc, name, from + 1)
    }
}

/// `section_index_from` stays within the document.
pub proof fn lemma_section_index_from(doc: Seq<SectionView>, name: Seq<char>, from: int)
    requires
        0 <= from,
    ensures
        section_index_from(doc, name, from) matches Some(i) ==> from <= i < doc.len() && doc[i].0
            == Some(name),
    decreases doc.len() - from,
{
    if from < doc.len() && doc[from].0 != Some(name) {
        lemma_section_index_from(doc, name, from + 1);
    }
}

/// The pairs of the first section named `name` (what `Ini::section` gives).
pub open spec fn find_section(doc: Seq<SectionView>, name: Seq<char>) -> Option<Seq<PropertyView>> {
    match section_index_from(doc, name, 0) {
        Some(i) => Some(doc[i].1),
        None => None,
    }
}

/// The first value recorded for `key` at or after `from`.
pub open spec fn value_from(entries: Seq<PropertyView>, key: Seq<char>, from: int) -> Option<Seq<char>>
    decreases entries.len() - from,
{
    if from < 0 || from >= entries.len() {
        None
    } else if entries[from].0 == key {
        Some(entries[from].1)
    } else {
        value_from(entries, key, from + 1)
    }
}

/// The first value recorded for `key` (what `Properties::get` gives).
pub open spec fn find_value(entries: Seq<PropertyView>, key: Seq<char>) -> Option<Seq<char>> {
    value_from(entries, key, 0)
}

/// The non-empty values among `entries` that end with `suffix`, in order.
pub open spec fn values_ending_with(entries: Seq<PropertyView>, suffix: Seq<char>) -> Seq<Seq<char>>
    decreases entries.len(),
{
    if entries.len() == 0 {
        Seq::empty()
    } else {
        let v = entries.last().1;
        let before = values_ending_with(entries.drop_last(), suffix);
        if v.len() > 0 && ends_with(v, suffix) {
            before.push(v)
        } else {
            before
        }
    }
}

/// The values that `get_ini_category` lists for a read settings file.
pub open spec fn category_values(doc: Seq<SectionView>, category: Seq<char>, suffix: Seq<char>) -> Seq<
    Seq<char>,
> {
    match find_section(doc, category) {
        Some(entries) => values_ending_with(entries, suffix),
        None => Seq::empty(),
    }
}

/// The value that `get_ini_value` gives for a read settings file.
pub open spec fn category_value(doc: Seq<SectionView>, category: Seq<char>, key: Seq<char>) -> Result<
    Seq<char>,
    IniError,
> {
    match find_section(doc, category) {
        None => Err(IniError::MissingSection),
        Some(entries) => match find_value(entries, key) {
            Some(v) => Ok(v),
            None => Err(IniError::MissingKey),
        },
    }
}

/// The suffix a filter asks for: none asks for the empty one.
pub open spec fn filter_suffix(filter: Option<&str>) -> Seq<char> {
    match filter {
        Some(f) => f@,
        None => Seq::empty(),
    }
}

/// The position of the first section named `name`.
fn section_position(doc: &IniDoc, name: &str) -> (res: Option<usize>)
    ensures
        res matches Some(i) ==> section_index_from(doc@, name@, 0) == Some(i as int) && i
            < doc.sections@.len(),
        res is None ==> section_index_from(doc@, name@, 0) is None,
{
    let wanted = name.to_owned();
    let n = doc.sections.len();
    let mut i: usize = 0;
    while i < n
        invariant
            n == doc.sections@.len(),
            wanted@ == name@,
            i <= n,
            section_index_from(doc@, name@, i as int) == section_index_from(doc@, name@, 0),
        decreases n - i,
    {
        assert(doc@[i as int] == doc.sections@[i as int]@);
        match &doc.sections[i].name {
            Some(section_name) => {
                if *section_name == wanted {
                    return Some(i);
                }
            },
            None => {},
        }
        i = i + 1;
    }
    None
}

/// The values of section `category` that are non-empty and end with `filter`
/// (any value when there is no filter); nothing when there is no such section.
pub fn section_values(doc: &IniDoc, category: &str, filter: Option<&str>) -> (res: Vec<String>)
    ensures
        string_views(res@) == category_values(doc@, category@, filter_suffix(filter)),
{
    let suffix: &str = match filter {
        Some(f) => f,
        None => "",
    };
    proof {
        if filter is None {
            reveal_strlit("");
        }
    }
    assert(suffix@ == filter_suffix(filter));
    let mut out: Vec<String> = Vec::new();
    let index = match section_position(doc, category) {
        Some(i) => i,
        None => {
            assert(string_views(out@) =~= Seq::<Seq<char>>::empty());
            return out;
        },
    };
    let entries = &doc.sections[index].entries;
    let ghost pairs = doc@[index as int].1;
    assert(pairs == entries@.map_values(|p: (String, String)| (p.0@, p.1@)));
    let n = entries.len();
    let mut i: usize = 0;
    assert(pairs.take(0) =~= Seq::<PropertyView>::empty());
    assert(string_views(out@) =~= Seq::<Seq<char>>::empty());
    while i < n
        invariant
            n == entries@.len(),
            pairs == entries@.map_values(|p: (String, String)| (p.0@, p.1@)),
            i <= n,
            suffix@ == filter_suffix(filter),
            string_views(out@) == values_ending_with(pairs.take(i as int), suffix@),
        decreases n - i,
    {
        let value = &entries[i].1;
        assert(pairs.take(i + 1).drop_last() =~= pairs.take(i as int));
        assert(pairs.take(i + 1).last().1 == value@);
        let ghost before = out@;
        if value.as_str().unicode_len() > 0 && str_ends_with(value.as_str(), suffix) {
            out.push(value.clone());
            assert(string_views(out@) =~= string_views(before).push(value@));
        }
        i = i + 1;
    }
    assert(pairs.take(n as int) =~= pairs);
    out
}

/// The first value of `key` in section `category`.
pub fn section_value(doc: &IniDoc, category: &str, key: &str) -> (res: Result<String, IniError>)
    ensures
        match category_value(doc@, category@, key@) {
            Ok(v) => res matches Ok(s) && s@ == v,
            Err(e) => res == Err::<String, IniError>(e),
        },
{
    let index = match section_position(doc, category) {
        Some(i) => i,
        None => {
            return Err(IniError::MissingSection);
        },
    };
    let entries = &doc.sections[index].entries;
    let ghost pairs = doc@[index as int].1;
    assert(pairs == entries@.map_values(|p: (String, String)| (p.0@, p.1@)));
    let wanted = key.to_owned();
    let n = entries.len();
    let mut i: usize = 0;
    while i < n
        invariant
            n == entries@.len(),
            pairs == entries@.map_values(|p: (String, String)| (p.0@, p.1@)),
            wanted@ == key@,
            find_section(doc@, category@) == Some(pairs),
            i <= n,
            value_from(pairs, key@, i as int) == value_from(pairs, key@, 0),
        decreases n - i,
    {
        assert(pairs[i as int] == (entries@[i as int].0@, entries@[i as int].1@));
        if entries[i].0 == wanted {
            return Ok(entries[i].1.clone());
        }
        i = i + 1;
    }
    Err(IniError::MissingKey)
}

/// The values of section `category` of the settings `text` (read with `\\`
/// as an escape character) that are non-empty and end with `filter`. The
/// text must be readable as settings.
pub fn get_ini_category(text: &str, category: &str, filter: Option<&str>) -> (res: Vec<String>)
    requires
        spec_load_ini(text@, true) is Ok,
    ensures
        spec_load_ini(text@, true) matches Ok(d) && string_views(res@) == category_values(
            d,
            category@,
            filter_suffix(filter),
        ),
{
    match load_ini(text, true) {
        Ok(doc) => section_values(&doc, category, filter),
        Err(_) => {
            proof {
                assert(false);
            }
            Vec::new()
        },
    }
}

/// Like `get_ini_category`, but tells when the text cannot be read as
/// settings instead of requiring that it can.
pub fn try_get_ini_category(text: &str, category: &str, filter: Option<&str>) -> (res: Result<
    Vec<String>,
    IniError,
>)
    ensures
        match spec_load_ini(text@, true) {
            Ok(d) => res matches Ok(v) && string_views(v@) == category_values(
                d,
                category@,
                filter_suffix(filter),
            ),
            Err((line, col)) => res == Err::<Vec<String>, IniError>(
                IniError::Parse { line, col },
            ),
        },
{
    match load_ini(text, true) {
        Ok(_) => Ok(get_ini_category(text, category, filter)),
        Err(e) => Err(e),
    }
}

/// The first value of `key` in section `category` of the settings `text`
/// (read with `\\` as an ordinary character). The text must be readable
/// as settings, and the section must hold the key.
pub fn get_ini_value(text: &str, category: &str, key: &str) -> (res: String)
    requires
        spec_load_ini(text@, false) matches Ok(d) && category_value(d, category@, key@) is Ok,
    ensures
        spec_load_ini(text@, false) matches Ok(d) && category_value(d, category@, key@) == Ok::<
            Seq<char>,
            IniError,
        >(res@),
{
    match load_ini(text, false) {
        Ok(doc) => match section_value(&doc, category, key) {
            Ok(value) => value,
            Err(_) => {
                proof {
                    assert(false);
                }
                String::new()
            },
        },
        Err(_) => {
            proof {
                assert(false);
            }
            String::new()
        },
    }
}

/// Like `get_ini_value`, but tells when the text cannot be read as settings,
/// the section is missing, or the key is missing, instead of requiring that
/// none of this happens.
pub fn try_get_ini_value(text: &str, category: &str, key: &str) -> (res: Result<String, IniError>)
    ensures
        match spec_load_ini(text@, false) {
            Ok(d) => match category_value(d, category@, key@) {
                Ok(v) => res matches Ok(s) && s@ == v,
                Err(e) => res == Err::<String, IniError>(e),
            },
            Err((line, col)) => res == Err::<String, IniError>(IniError::Parse { line, col }),
        },
{
    let doc = load_ini(text, false)?;
    match section_value(&doc, category, key) {
        Ok(_) => Ok(get_ini_value(text, category, key)),
        Err(e) => Err(e),
    }
}

/// The bytes of a settings file that hold its text: a leading UTF-8 byte
/// order mark is left out.
pub open spec fn settings_text_bytes(bytes: Seq<u8>) -> Seq<u8> {
    if bytes.len() >= 3 && bytes[0] == 0xEF && bytes[1] == 0xBB && bytes[2] == 0xBF {
        bytes.skip(3)
    } else {
        bytes
    }
}

/// The text of a settings file; `None` when it is not valid UTF-8.
pub fn decode_settings(bytes: &[u8]) -> (res: Option<String>)
    ensures
        res is Some <==> valid_utf8(settings_text_bytes(bytes@)),
        res matches Some(s) ==> s@ == decode_utf8(settings_text_bytes(bytes@)),
{
    let len = bytes.len();
    let body = if len >= 3 && bytes[0] == 0xEF && bytes[1] == 0xBB && bytes[2] == 0xBF {
        vstd::slice::slice_subrange(bytes, 3, len)
    } else {
        vstd::slice::slice_subrange(bytes, 0, len)
    };
    assert(body@ =~= settings_text_bytes(bytes@));
    match utf8_str(body) {
        Some(text) => Some(text.to_owned()),
        None => None,
    }
}

} // verus!
