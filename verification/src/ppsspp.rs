use vstd::prelude::*;
use vstd::utf8::*;
use crate::bytes::{
    bytes_before, find_bytes, first_occurrence, last_index_before, last_index_of, prefix_before,
    utf8_str, without,
};
use crate::text::{concat3, concat_str, string_views, trim_end};
use crate::ini::{
    category_value, category_values, get_ini_category, get_ini_value, spec_load_ini,
    try_get_ini_category, try_get_ini_value, IniError,
};
use crate::files::{filter_listing, paths_matching};

verus! {

/// The key that precedes the title in `PARAM.SFO` data: `TITLE`.
pub open spec fn title_key() -> Seq<u8> {
    seq![0x54u8, 0x49u8, 0x54u8, 0x4Cu8, 0x45u8]
}

/// Number of consecutive zero bytes that ends the title area.
pub const ZERO_RUN: usize = 16;

/// `k` ends a run of `ZERO_RUN` zero bytes that lies within `data[pos..]`.
pub open spec fn zero_run_ends_at(data: Seq<u8>, pos: int, k: int) -> bool {
    &&& pos + ZERO_RUN <= k <= data.len()
    &&& forall|j: int| k - ZERO_RUN <= j < k ==> data[j] == 0
}

/// The first `k` at or after `from` that ends such a run, or the data's end.
pub open spec fn zero_run_end_from(data: Seq<u8>, pos: int, from: int) -> int
    decreases data.len() - from,
{
    if from >= data.len() {
        data.len() as int
    } else if zero_run_ends_at(data, pos, from) {
        from
    } else {
        zero_run_end_from(data, pos, from + 1)
    }
}

/// Where the title area that starts at `pos` ends: just after the first run
/// of `ZERO_RUN` zero bytes, or at the end of the data.
pub open spec fn title_area_end(data: Seq<u8>, pos: int) -> int {
    zero_run_end_from(data, pos, pos)
}

/// The title found in `PARAM.SFO` data: after the first `TITLE` key, the
/// bytes up to the end of the title area, without trailing zero bytes; the
/// title is what follows the last 0x80 byte there, zero bytes left out, read
/// as UTF-8. It is empty when there is no key, no 0x80 byte, or no valid text.
pub open spec fn spec_param_title(data: Seq<u8>) -> Seq<char> {
    match first_occurrence(data, title_key()) {
        None => Seq::empty(),
        Some(pos) => {
            let content = trim_end(
                data.subrange(pos + title_key().len(), title_area_end(data, pos)),
                0u8,
            );
            match last_index_of(content, 0x80u8) {
                None => Seq::empty(),
                Some(m) => {
                    let cleaned = without(content.skip(m + 1), 0u8);
                    if valid_utf8(cleaned) {
                        decode_utf8(cleaned)
                    } else {
                        Seq::empty()
                    }
                },
            }
        },
    }
}

/// `zero_run_end_from` never goes back before `from` nor past the end.
pub proof fn lemma_zero_run_end_bounds(data: Seq<u8>, pos: int, from: int)
    requires
        0 <= from <= data.len(),
    ensures
        from <= zero_run_end_from(data, pos, from) <= data.len(),
        zero_run_end_from(data, pos, from) < data.len() ==> zero_run_ends_at(
            data,
            pos,
            zero_run_end_from(data, pos, from),
        ),
    decreases data.len() - from,
{
    if from < data.len() && !zero_run_ends_at(data, pos, from) {
        lemma_zero_run_end_bounds(data, pos, from + 1);
    }
}

/// The end of the title area that starts at `pos`.
fn find_title_area_end(data: &[u8], pos: usize) -> (end: usize)
    requires
        pos <= data@.len(),
    ensures
        end as int == title_area_end(data@, pos as int),
{
    let len = data.len();
    let mut zeros: usize = 0;
    let mut i: usize = pos;
    while i < len
        invariant
            len == data@.len(),
            pos <= i <= len,
            zeros < ZERO_RUN,
            zeros <= i - pos,
            forall|j: int| i - zeros <= j < i ==> data@[j] == 0,
            zeros < i - pos ==> data@[i - zeros - 1] != 0,
            zero_run_end_from(data@, pos as int, pos as int) == zero_run_end_from(
                data@,
                pos as int,
                i as int,
            ),
        decreases len - i,
    {
        proof {
            if zero_run_ends_at(data@, pos as int, i as int) {
                assert(data@[i - zeros - 1] == 0);
            }
        }
        if data[i] == 0 {
            zeros = zeros + 1;
            if zeros >= ZERO_RUN {
                proof {
                    assert(!zero_run_ends_at(data@, pos as int, i as int));
                    assert(zero_run_end_from(data@, pos as int, i as int) == zero_run_end_from(
                        data@,
                        pos as int,
                        i + 1,
                    ));
                    if i + 1 < len {
                        assert forall|j: int| i + 1 - ZERO_RUN <= j < i + 1 implies data@[j]
                            == 0 by {
                            if j < i {
                                assert(i - (zeros - 1) <= j);
                            }
                        }
                        assert(zero_run_ends_at(data@, pos as int, i + 1));
                    }
                }
                return i + 1;
            }
        } else {
            zeros = 0;
        }
        i = i + 1;
    }
    proof {
        if zero_run_ends_at(data@, pos as int, i as int) {
            assert(data@[i - zeros - 1] == 0);
        }
    }
    len
}

/// The title recorded in `PARAM.SFO` data (see `spec_param_title`).
pub fn get_param_data(data: &[u8]) -> (res: String)
    ensures
        res@ == spec_param_title(data@),
{
    let pattern: Vec<u8> = vec![0x54u8, 0x49u8, 0x54u8, 0x4Cu8, 0x45u8];
    assert(pattern@ =~= title_key());
    let pos = match find_bytes(data, pattern.as_slice()) {
        Some(p) => p,
        None => {
            return String::new();
        },
    };
    let end = find_title_area_end(data, pos);
    proof {
        lemma_zero_run_end_bounds(data@, pos as int, pos as int);
        assert(data@.subrange(pos as int, pos + 5) == title_key());
        if end < pos + 5 {
            assert(data@[end - 1] == title_key()[end - 1 - pos]);
        }
    }
    let content = vstd::slice::slice_subrange(data, pos + 5, end);
    // Trailing zero bytes are not part of the content.
    let mut k: usize = content.len();
    assert(content@.take(k as int) =~= content@);
    while k > 0 && content[k - 1] == 0
        invariant
            k <= content@.len(),
            trim_end(content@, 0u8) == trim_end(content@.take(k as int), 0u8),
        decreases k,
    {
        assert(content@.take(k as int).drop_last() =~= content@.take(k - 1));
        k = k - 1;
    }
    let ghost trimmed = content@.take(k as int);
    proof {
        if k > 0 {
            assert(trimmed.last() == content@[k - 1]);
        }
        assert(trim_end(trimmed, 0u8) == trimmed);
    }
    // The title follows the last 0x80 byte.
    let mut m: usize = k;
    while m > 0 && content[m - 1] != 0x80
        invariant
            m <= k <= content@.len(),
            trimmed == content@.take(k as int),
            last_index_before(trimmed, 0x80u8, k as int) == last_index_before(
                trimmed,
                0x80u8,
                m as int,
            ),
        decreases m,
    {
        m = m - 1;
    }
    if m == 0 {
        return String::new();
    }
    let start = m;
    let ghost after = trimmed.skip(start as int);
    let mut cleaned: Vec<u8> = Vec::new();
    let mut i: usize = start;
    assert(after.take(0) =~= Seq::<u8>::empty());
    while i < k
        invariant
            start <= i <= k <= content@.len(),
            trimmed == content@.take(k as int),
            after == trimmed.skip(start as int),
            cleaned@ == without(after.take(i - start), 0u8),
        decreases k - i,
    {
        let b = content[i];
        assert(after.take(i + 1 - start).drop_last() =~= after.take(i - start));
        if b != 0 {
            cleaned.push(b);
        }
        i = i + 1;
    }
    assert(after.take(k - start) =~= after);
    match utf8_str(cleaned.as_slice()) {
        Some(text) => text.to_owned(),
        None => String::new(),
    }
}

/// Where the game id is stored in a PSP disc image.
pub const GAME_ID_OFFSET: u64 = 0x8373;

/// The byte that ends the game id in a PSP disc image.
pub const GAME_ID_END: u8 = 0x7C;

/// The text of the bytes before the first `end_byte` (all of them when there
/// is none); `None` when those bytes are not valid UTF-8.
pub fn get_hex(data: &[u8], end_byte: u8) -> (res: Option<String>)
    ensures
        res is Some <==> valid_utf8(prefix_before(data@, end_byte)),
        res matches Some(s) ==> s@ == decode_utf8(prefix_before(data@, end_byte)),
{
    let field = bytes_before(data, end_byte);
    match utf8_str(field) {
        Some(text) => Some(text.to_owned()),
        None => None,
    }
}

/// Where the icon of the game with this id is extracted to.
pub open spec fn icon_path(id: Seq<char>) -> Seq<char> {
    "temp\\psp\\"@ + id + "\\icon.png"@
}

/// Where the thumbnail of the game with this id is extracted to.
pub open spec fn thumbnail_path(id: Seq<char>) -> Seq<char> {
    "temp\\psp\\"@ + id + "\\thumb.png"@
}

/// Where the `PARAM.SFO` of the game with this id is extracted to.
pub open spec fn params_path(id: Seq<char>) -> Seq<char> {
    "temp\\psp\\"@ + id + "\\params.sfo"@
}

/// Where the files of one game are extracted to.
pub struct AssetPaths {
    pub icon: String,
    pub thumbnail: String,
    pub params: String,
}

/// The paths that the icon, thumbnail and `PARAM.SFO` of the game with this
/// id are extracted to.
pub fn game_asset_paths(id: &str) -> (res: AssetPaths)
    ensures
        res.icon@ == icon_path(id@),
        res.thumbnail@ == thumbnail_path(id@),
        res.params@ == params_path(id@),
{
    AssetPaths {
        icon: concat3("temp\\psp\\", id, "\\icon.png"),
        thumbnail: concat3("temp\\psp\\", id, "\\thumb.png"),
        params: concat3("temp\\psp\\", id, "\\params.sfo"),
    }
}

/// A PSP game found by PPSSPP.
pub struct PPSSPPGame {
    pub id: String,
    pub title: String,
    pub version: String,
    pub path: String,
    pub icon: String,
    pub thumbnail: String,
    pub params: String,
}

/// Why a game could not be described.
#[derive(Debug, Clone, Copy, PartialEq, Eq, Structural)]
pub enum GameError {
    /// The id stored in the image is not valid UTF-8.
    InvalidId,
}

/// Describes the game whose image is at `path`, from the bytes stored at
/// `GAME_ID_OFFSET` in the image and from the content of its `PARAM.SFO`.
pub fn get_game(path: &str, id_field: &[u8], param_data: &[u8]) -> (res: Result<
    PPSSPPGame,
    GameError,
>)
    ensures
        res is Err <==> !valid_utf8(prefix_before(id_field@, GAME_ID_END)),
        res matches Ok(g) ==> {
            let id = decode_utf8(prefix_before(id_field@, GAME_ID_END));
            &&& g.id@ == id
            &&& g.path@ == path@
            &&& g.title@ == spec_param_title(param_data@)
            &&& g.version@ == Seq::<char>::empty()
            &&& g.icon@ == icon_path(id)
            &&& g.thumbnail@ == thumbnail_path(id)
            &&& g.params@ == params_path(id)
        },
        res matches Err(e) ==> e == GameError::InvalidId,
{
    let id = match get_hex(id_field, GAME_ID_END) {
        Some(id) => id,
        None => {
            return Err(GameError::InvalidId);
        },
    };
    let assets = game_asset_paths(id.as_str());
    let title = get_param_data(param_data);
    Ok(
        PPSSPPGame {
            id,
            title,
            version: String::new(),
            path: path.to_owned(),
            icon: assets.icon,
            thumbnail: assets.thumbnail,
            params: assets.params,
        },
    )
}

/// The folder where PPSSPP keeps its data, under the user's documents folder.
pub fn ppsspp_dir(documents: &str) -> (res: String)
    ensures
        res@ == documents@ + "\\PPSSPP\\PSP"@,
{
    concat_str(documents, "\\PPSSPP\\PSP")
}

/// The settings file of PPSSPP, under its data folder.
pub fn ppsspp_ini_path(path: &str) -> (res: String)
    ensures
        res@ == path@ + "\\SYSTEM\\ppsspp.ini"@,
{
    concat_str(path, "\\SYSTEM\\ppsspp.ini")
}

/// The list of game paths after adding each of `rest`, in order, unless it
/// is listed already.
pub open spec fn merge_paths(listed: Seq<Seq<char>>, rest: Seq<Seq<char>>) -> Seq<Seq<char>>
    decreases rest.len(),
{
    if rest.len() == 0 {
        listed
    } else if listed.contains(rest[0]) {
        merge_paths(listed, rest.drop_first())
    } else {
        merge_paths(listed.push(rest[0]), rest.drop_first())
    }
}

/// Whether `list` holds a string equal to `item`.
fn list_contains(list: &Vec<String>, item: &String) -> (res: bool)
    ensures
        res == string_views(list@).contains(item@),
{
    let n = list.len();
    let mut i: usize = 0;
    while i < n
        invariant
            n == list@.len(),
            i <= n,
            forall|j: int| 0 <= j < i ==> list@[j]@ != item@,
        decreases n - i,
    {
        if list[i] == *item {
            assert(string_views(list@)[i as int] == item@);
            return true;
        }
        i = i + 1;
    }
    proof {
        if string_views(list@).contains(item@) {
            let j = choose|j: int| 0 <= j < string_views(list@).len() && string_views(list@)[j] == item@;
            assert(list@[j]@ == item@);
        }
    }
    false
}

/// The recent games followed by each shared game that is not listed yet.
pub fn merge_game_paths(recent: &Vec<String>, shared: &Vec<String>) -> (res: Vec<String>)
    ensures
        string_views(res@) == merge_paths(string_views(recent@), string_views(shared@)),
{
    let mut out: Vec<String> = recent.clone();
    let n = shared.len();
    let mut i: usize = 0;
    assert(string_views(shared@).skip(0) =~= string_views(shared@));
    while i < n
        invariant
            n == shared@.len(),
            i <= n,
            merge_paths(string_views(recent@), string_views(shared@)) == merge_paths(
                string_views(out@),
                string_views(shared@).skip(i as int),
            ),
        decreases n - i,
    {
        let item = &shared[i];
        let ghost before = out@;
        let ghost rest = string_views(shared@).skip(i as int);
        assert(rest[0] == item@);
        assert(rest.drop_first() =~= string_views(shared@).skip(i + 1));
        if !list_contains(&out, item) {
            out.push(item.clone());
            assert(string_views(out@) =~= string_views(before).push(item@));
        }
        i = i + 1;
    }
    out
}

/// The games PPSSPP lists as recently played: the non-empty values of the
/// `Recent` section of its settings `text` that end with `.iso`. The text
/// must be readable as settings.
pub fn get_recent_games(text: &str) -> (res: Vec<String>)
    requires
        spec_load_ini(text@, true) is Ok,
    ensures
        spec_load_ini(text@, true) matches Ok(d) && string_views(res@) == category_values(
            d,
            "Recent"@,
            ".iso"@,
        ),
{
    get_ini_category(text, "Recent", Some(".iso"))
}

/// Like `get_recent_games`, but tells when the text cannot be read as
/// settings instead of requiring that it can.
pub fn try_get_recent_games(text: &str) -> (res: Result<Vec<String>, IniError>)
    ensures
        match spec_load_ini(text@, true) {
            Ok(d) => res matches Ok(v) && string_views(v@) == category_values(
                d,
                "Recent"@,
                ".iso"@,
            ),
            Err((line, col)) => res == Err::<Vec<String>, IniError>(
                IniError::Parse { line, col },
            ),
        },
{
    match try_get_ini_category(text, "Recent", Some(".iso")) {
        Ok(_) => Ok(get_recent_games(text)),
        Err(e) => Err(e),
    }
}

/// The folder PPSSPP shares disc images from: the `RemoteISOSharedDir` value
/// of the `General` section of its settings `text`, which must hold it.
pub fn shared_games_dir(text: &str) -> (res: String)
    requires
        spec_load_ini(text@, false) matches Ok(d) && category_value(
            d,
            "General"@,
            "RemoteISOSharedDir"@,
        ) is Ok,
    ensures
        spec_load_ini(text@, false) matches Ok(d) && category_value(
            d,
            "General"@,
            "RemoteISOSharedDir"@,
        ) == Ok::<Seq<char>, IniError>(res@),
{
    get_ini_value(text, "General", "RemoteISOSharedDir")
}

/// Like `shared_games_dir`, but tells when the text cannot be read as
/// settings or does not hold the value, instead of requiring that it does.
pub fn try_shared_games_dir(text: &str) -> (res: Result<String, IniError>)
    ensures
        match spec_load_ini(text@, false) {
            Ok(d) => match category_value(d, "General"@, "RemoteISOSharedDir"@) {
                Ok(v) => res matches Ok(s) && s@ == v,
                Err(e) => res == Err::<String, IniError>(e),
            },
            Err((line, col)) => res == Err::<String, IniError>(IniError::Parse { line, col }),
        },
{
    match try_get_ini_value(text, "General", "RemoteISOSharedDir") {
        Ok(_) => Ok(shared_games_dir(text)),
        Err(e) => Err(e),
    }
}

/// The shared games among the paths listed in the shared folder: those that
/// hold `.iso`.
pub fn get_shared_games(listing: &Vec<String>) -> (res: Vec<String>)
    ensures
        string_views(res@) == paths_matching(string_views(listing@), Some(".iso"@)),
{
    filter_listing(listing, Some(".iso"))
}

} // verus!
