use vstd::prelude::*;

verus! {

/// `i` is the first position of `c` in `s` at or after `from`.
pub open spec fn is_first_at(s: Seq<char>, c: char, from: int, i: int) -> bool {
    &&& 0 <= from <= i < s.len()
    &&& s[i] == c
    &&& forall|j: int| from <= j < i ==> s[j] != c
}

/// `s` holds `c` at or after `from`.
pub open spec fn holds_char(s: Seq<char>, c: char, from: int) -> bool {
    exists|i: int| from <= i < s.len() && s[i] == c
}

/// The first position of `c` in `s` at or after `from`.
pub open spec fn index_of(s: Seq<char>, c: char, from: int) -> int {
    choose|i: int| is_first_at(s, c, from, i)
}

/// `i` is the first position at or after `from` where `__` starts.
pub open spec fn is_first_sep(s: Seq<char>, from: int, i: int) -> bool {
    &&& 0 <= from <= i && i + 1 < s.len()
    &&& s[i] == '_' && s[i + 1] == '_'
    &&& forall|j: int| from <= j < i ==> !(#[trigger] s[j] == '_' && s[j + 1] == '_')
}

/// `s` holds `__` at or after `from`.
pub open spec fn holds_sep(s: Seq<char>, from: int) -> bool {
    exists|i: int| from <= i && i + 1 < s.len() && #[trigger] s[i] == '_' && s[i + 1] == '_'
}

/// The first position at or after `from` where `__` starts.
pub open spec fn sep_index(s: Seq<char>, from: int) -> int {
    choose|i: int| is_first_sep(s, from, i)
}

/// The id and the grid type that a grid file's name holds.
pub open spec fn id_from_grid_name(g: Seq<char>) -> (Seq<char>, Seq<char>) {
    let name = g.take(index_of(g, '.', 0));
    if holds_char(g, '_', 0) {
        let u = index_of(g, '_', 0);
        (name.take(u), name.skip(u + 1))
    } else if name.len() > 0 && name.last() == 'p' {
        (name.drop_last(), "capsule"@)
    } else if g.skip(index_of(g, '.', 0) + 1) == "json"@ {
        (name, "logoposition"@)
    } else {
        (name, "widecapsule"@)
    }
}

/// The id and the grid type that a grid cache file's name holds.
pub open spec fn info_from_gridname(g: Seq<char>) -> (Seq<char>, Seq<char>) {
    let name = g.take(index_of(g, '.', 0));
    if holds_char(g, '_', 0) {
        let u = index_of(g, '_', 0);
        (name.take(u), name.skip(u + 1))
    } else if name.len() > 0 && name.last() == 'p' {
        (name.drop_last(), "capsule"@)
    } else {
        (name, "wide_capsule"@)
    }
}

/// A grid file name that the id-and-type split accepts: it has an extension, and an
/// underscore, if any, stands before it.
pub open spec fn splittable_grid_name(g: Seq<char>) -> bool {
    &&& holds_char(g, '.', 0)
    &&& holds_char(g, '_', 0) ==> index_of(g, '_', 0) <= index_of(g, '.', 0)
}

/// Finds the first `c` in `s` at or after `from`.
fn find_char(s: &str, c: char, from: usize) -> (r: Option<usize>)
    requires
        from <= s@.len(),
    ensures
        match r {
            Some(i) => is_first_at(s@, c, from as int, i as int) && i == index_of(s@, c, from as int),
            None => !holds_char(s@, c, from as int),
        },
{
    let n = s.unicode_len();
    let mut i: usize = from;
    while i < n
        invariant
            n == s@.len(),
            from <= i <= n,
            forall|j: int| from <= j < i ==> s@[j] != c,
        decreases n - i,
    {
        if s.get_char(i) == c {
            proof {
                let k = index_of(s@, c, from as int);
                assert(is_first_at(s@, c, from as int, i as int));
                if k != i {
                    assert(is_first_at(s@, c, from as int, k));
                    assert(false);
                }
            }
            return Some(i);
        }
        i = i + 1;
    }
    None
}

/// Finds the first `__` in `s` at or after `from`.
fn find_sep(s: &str, from: usize) -> (r: Option<usize>)
    requires
        from <= s@.len(),
    ensures
        match r {
            Some(i) => is_first_sep(s@, from as int, i as int) && i == sep_index(s@, from as int),
            None => !holds_sep(s@, from as int),
        },
{
    let n = s.unicode_len();
    let mut i: usize = from;
    while i < n && i + 1 < n
        invariant
            n == s@.len(),
            from <= i <= n,
            forall|j: int| from <= j < i && j + 1 < n ==> !(#[trigger] s@[j] == '_' && s@[j + 1] == '_'),
        decreases n - i,
    {
        if s.get_char(i) == '_' && s.get_char(i + 1) == '_' {
            proof {
                let k = sep_index(s@, from as int);
                assert(is_first_sep(s@, from as int, i as int));
                if k != i {
                    assert(is_first_sep(s@, from as int, k));
                    assert(false);
                }
            }
            return Some(i);
        }
        i = i + 1;
    }
    None
}

/// The characters of `s` in `[from, to)`, as a new string.
fn sub_string(s: &str, from: usize, to: usize) -> (r: String)
    requires
        from <= to <= s@.len(),
    ensures
        r@ == s@.subrange(from as int, to as int),
{
    s.substring_char(from, to).to_owned()
}

/// Whether the last character of `s` is `c`.
fn ends_with_char(s: &str, c: char) -> (r: bool)
    ensures
        r == (s@.len() > 0 && s@.last() == c),
{
    let n = s.unicode_len();
    n > 0 && s.get_char(n - 1) == c
}

/// Splits a grid file's name into its id and its grid type.
pub fn get_id_from_grid_name(grid_name: &str) -> (r: (String, String))
    requires
        splittable_grid_name(grid_name@),
    ensures
        (r.0@, r.1@) == id_from_grid_name(grid_name@),
{
    let n = grid_name.unicode_len();
    let dot = match find_char(grid_name, '.', 0) {
        Some(d) => d,
        None => 0,
    };
    let name = sub_string(grid_name, 0, dot);
    assert(name@ =~= grid_name@.take(dot as int));
    match find_char(grid_name, '_', 0) {
        Some(u) => {
            let id = sub_string(name.as_str(), 0, u);
            let grid_type = sub_string(name.as_str(), u + 1, dot);
            assert(id@ =~= name@.take(u as int));
            assert(grid_type@ =~= name@.skip(u + 1));
            (id, grid_type)
        },
        None => {
            if ends_with_char(name.as_str(), 'p') {
                let id = sub_string(name.as_str(), 0, dot - 1);
                assert(id@ =~= name@.drop_last());
                (id, String::from_str("capsule"))
            } else {
                let ext = sub_string(grid_name, dot + 1, n);
                assert(ext@ =~= grid_name@.skip(dot + 1));
                if ext == String::from_str("json") {
                    (name, String::from_str("logoposition"))
                } else {
                    (name, String::from_str("widecapsule"))
                }
            }
        },
    }
}

/// Splits a grid cache file's name into its id and its grid type.
pub fn get_info_from_gridname(grid_name: String) -> (r: (String, String))
    requires
        splittable_grid_name(grid_name@),
    ensures
        (r.0@, r.1@) == info_from_gridname(grid_name@),
{
    let g = grid_name.as_str();
    let dot = match find_char(g, '.', 0) {
        Some(d) => d,
        None => 0,
    };
    let name = sub_string(g, 0, dot);
    assert(name@ =~= grid_name@.take(dot as int));
    match find_char(g, '_', 0) {
        Some(u) => {
            let id = sub_string(name.as_str(), 0, u);
            let grid_type = sub_string(name.as_str(), u + 1, dot);
            assert(id@ =~= name@.take(u as int));
            assert(grid_type@ =~= name@.skip(u + 1));
            (id, grid_type)
        },
        None => {
            if ends_with_char(name.as_str(), 'p') {
                let id = sub_string(name.as_str(), 0, dot - 1);
                assert(id@ =~= name@.drop_last());
                (id, String::from_str("capsule"))
            } else {
                (name, String::from_str("wide_capsule"))
            }
        },
    }
}

/// The four parts of an export name `platform__core__type.ext`: platform, core, grid type
/// and extension (with its dot).
pub open spec fn export_name_parts(f: Seq<char>) -> (Seq<char>, Seq<char>, Seq<char>, Seq<char>) {
    let ext = f.skip(index_of(f, '.', 0));
    let s1 = sep_index(f, 0);
    let s2 = sep_index(f, s1 + 2);
    let s3 = if holds_sep(f, s2 + 2) {
        sep_index(f, s2 + 2)
    } else {
        f.len() as int
    };
    let third = f.subrange(s2 + 2, s3);
    (f.take(s1), f.subrange(s1 + 2, s2), third.take(third.len() - ext.len()), ext)
}

/// An export name that splits into its four parts: it has an extension, two `__`
/// separators, and a third part at least as long as the extension.
pub open spec fn splittable_export_name(f: Seq<char>) -> bool {
    &&& holds_char(f, '.', 0)
    &&& holds_sep(f, 0)
    &&& holds_sep(f, sep_index(f, 0) + 2)
    &&& ({
        let s2 = sep_index(f, sep_index(f, 0) + 2);
        let s3 = if holds_sep(f, s2 + 2) {
            sep_index(f, s2 + 2)
        } else {
            f.len() as int
        };
        s3 - (s2 + 2) >= f.len() - index_of(f, '.', 0)
    })
}

/// Splits an export name into platform, core, grid type and extension.
pub fn deconstruct_grid_export_name(filename: &str) -> (r: (String, String, String, String))
    requires
        splittable_export_name(filename@),
    ensures
        (r.0@, r.1@, r.2@, r.3@) == export_name_parts(filename@),
{
    let n = filename.unicode_len();
    let dot = match find_char(filename, '.', 0) {
        Some(d) => d,
        None => 0,
    };
    let s1 = match find_sep(filename, 0) {
        Some(i) => i,
        None => 0,
    };
    let s2 = match find_sep(filename, s1 + 2) {
        Some(i) => i,
        None => 0,
    };
    let s3 = match find_sep(filename, s2 + 2) {
        Some(i) => i,
        None => n,
    };
    let ext_len = n - dot;
    let ext = sub_string(filename, dot, n);
    let platform = sub_string(filename, 0, s1);
    let core = sub_string(filename, s1 + 2, s2);
    let grid_type = sub_string(filename, s2 + 2, s3 - ext_len);
    proof {
        let third = filename@.subrange(s2 + 2, s3 as int);
        assert(grid_type@ =~= third.take(third.len() - ext@.len()));
        assert(ext@ =~= filename@.skip(dot as int));
        assert(platform@ =~= filename@.take(s1 as int));
    }
    (platform, core, grid_type, ext)
}

/// The value paired with `k` in the first pair of `m` whose key is `k`.
pub open spec fn pair_lookup(m: Seq<(Seq<char>, Seq<char>)>, k: Seq<char>) -> Option<Seq<char>> {
    if exists|i: int| crate::keyvalue::first_key_at(m, k, i) {
        Some(m[choose|i: int| crate::keyvalue::first_key_at(m, k, i)].1)
    } else {
        None
    }
}

/// The view of a list of string pairs.
pub open spec fn pairs_view(m: Seq<(String, String)>) -> Seq<(Seq<char>, Seq<char>)> {
    m.map_values(|p: (String, String)| (p.0@, p.1@))
}

/// Finds the value paired with `key`.
pub fn find_pair<'a>(pairs: &'a Vec<(String, String)>, key: &String) -> (r: Option<&'a String>)
    ensures
        match r {
            Some(v) => pair_lookup(pairs_view(pairs@), key@) == Some(v@),
            None => pair_lookup(pairs_view(pairs@), key@) is None,
        },
{
    let ghost m = pairs_view(pairs@);
    let mut i: usize = 0;
    while i < pairs.len()
        invariant
            0 <= i <= pairs@.len(),
            m == pairs_view(pairs@),
            forall|j: int| 0 <= j < i ==> m[j].0 != key@,
        decreases pairs@.len() - i,
    {
        if pairs[i].0 == *key {
            proof {
                assert(crate::keyvalue::first_key_at(m, key@, i as int));
                crate::keyvalue::lemma_first_key_unique(m, key@, i as int, choose|j: int| crate::keyvalue::first_key_at(m, key@, j));
            }
            return Some(&pairs[i].1);
        }
        i = i + 1;
    }
    proof {
        if exists|j: int| crate::keyvalue::first_key_at(m, key@, j) {
            let j = choose|j: int| crate::keyvalue::first_key_at(m, key@, j);
            assert(m[j].0 == key@);
        }
    }
    None
}

/// The export name of a grid file: `platform__core__type.ext`, where the core is the
/// shortcut's name for a non-Steam app that `id_name_map` names, and the id otherwise.
pub open spec fn export_name(
    f: Seq<char>,
    id: Seq<char>,
    grid_type: Seq<char>,
    platform: Seq<char>,
    id_name_map: Seq<(Seq<char>, Seq<char>)>,
) -> Seq<char> {
    let core = if platform == "nonsteam"@ && pair_lookup(id_name_map, id) is Some {
        pair_lookup(id_name_map, id)->Some_0
    } else {
        id
    };
    platform + "__"@ + core + "__"@ + grid_type + f.skip(index_of(f, '.', 0))
}

/// Builds the export name of a grid file.
pub fn construct_grid_export_name(
    filename: &str,
    id: &String,
    grid_type: &String,
    platform: &str,
    id_name_map: &Vec<(String, String)>,
) -> (r: String)
    requires
        holds_char(filename@, '.', 0),
    ensures
        r@ == export_name(filename@, id@, grid_type@, platform@, pairs_view(id_name_map@)),
{
    let n = filename.unicode_len();
    let dot = match find_char(filename, '.', 0) {
        Some(d) => d,
        None => 0,
    };
    let ext = sub_string(filename, dot, n);
    assert(ext@ =~= filename@.skip(dot as int));
    let mut out = String::from_str(platform);
    out.append("__");
    let nonsteam = String::from_str(platform) == String::from_str("nonsteam");
    let found = if nonsteam {
        find_pair(id_name_map, id)
    } else {
        None
    };
    match found {
        Some(name) => out.append(name.as_str()),
        None => out.append(id.as_str()),
    }
    out.append("__");
    out.append(grid_type.as_str());
    out.append(ext.as_str());
    out
}

/// What an exported grid type adds to the app id in a grid file's name.
pub open spec fn import_suffix(t: Seq<char>) -> Option<Seq<char>> {
    if t == "capsule"@ {
        Some("p"@)
    } else if t == "widecapsule"@ || t == "logoposition"@ {
        Some(Seq::empty())
    } else if t == "hero"@ {
        Some("_hero"@)
    } else if t == "logo"@ {
        Some("_logo"@)
    } else if t == "icon"@ {
        Some("_icon"@)
    } else {
        None
    }
}

/// A file name that the import can take: it has an extension, and if it holds `__` it
/// is a whole export name.
pub open spec fn importable_name(f: Seq<char>) -> bool {
    &&& holds_char(f, '.', 0)
    &&& holds_sep(f, 0) ==> splittable_export_name(f)
}

/// Platform, app id and grid file name for a file taken from an export; `None` for an
/// export name whose grid type is unknown.
pub open spec fn import_name(f: Seq<char>, name_id_map: Seq<(Seq<char>, Seq<char>)>) -> Option<
    (Seq<char>, Seq<char>, Seq<char>),
> {
    if holds_sep(f, 0) {
        let (platform, core, grid_type, ext) = export_name_parts(f);
        match import_suffix(grid_type) {
            None => None,
            Some(suffix) => {
                let id = if platform == "nonsteam"@ && pair_lookup(name_id_map, core) is Some {
                    pair_lookup(name_id_map, core)->Some_0
                } else {
                    core
                };
                Some((platform, id, id + suffix + ext))
            },
        }
    } else {
        Some((Seq::empty(), f.take(index_of(f, '.', 0)), f))
    }
}

fn import_suffix_exec(t: &String) -> (r: Option<String>)
    ensures
        match r {
            Some(s) => import_suffix(t@) == Some(s@),
            None => import_suffix(t@) is None,
        },
{
    if *t == String::from_str("capsule") {
        Some(String::from_str("p"))
    } else if *t == String::from_str("widecapsule") || *t == String::from_str("logoposition") {
        Some(String::new())
    } else if *t == String::from_str("hero") {
        Some(String::from_str("_hero"))
    } else if *t == String::from_str("logo") {
        Some(String::from_str("_logo"))
    } else if *t == String::from_str("icon") {
        Some(String::from_str("_icon"))
    } else {
        None
    }
}

/// The platform, the app id and the grid file name under which a file of an export is
/// stored; `None` where its grid type is unknown.
pub fn get_import_grid_name(filename: &str, name_id_map: &Vec<(String, String)>) -> (r: Option<
    (String, String, String),
>)
    requires
        importable_name(filename@),
    ensures
        match r {
            Some((p, i, n)) => import_name(filename@, pairs_view(name_id_map@)) == Some((p@, i@, n@)),
            None => import_name(filename@, pairs_view(name_id_map@)) is None,
        },
{
    match find_sep(filename, 0) {
        Some(_) => {
            let (platform, core, grid_type, ext) = deconstruct_grid_export_name(filename);
            let suffix = import_suffix_exec(&grid_type)?;
            let nonsteam = platform == String::from_str("nonsteam");
            let found = if nonsteam {
                find_pair(name_id_map, &core)
            } else {
                None
            };
            let id = match found {
                Some(v) => v.as_str().to_owned(),
                None => core,
            };
            let mut name = id.as_str().to_owned();
            name.append(suffix.as_str());
            name.append(ext.as_str());
            Some((platform, id, name))
        },
        None => {
            let dot = match find_char(filename, '.', 0) {
                Some(d) => d,
                None => 0,
            };
            let appid = sub_string(filename, 0, dot);
            assert(appid@ =~= filename@.take(dot as int));
            Some((String::new(), appid, filename.to_owned()))
        },
    }
}

/// The name of a grid file of an app, by the grid type's display name; `None` for an
/// unknown grid type.
pub open spec fn grid_filename(appid: Seq<char>, grid_type: Seq<char>, image_type: Seq<char>) -> Option<Seq<char>> {
    if grid_type == "Capsule"@ {
        Some(appid + "p"@ + image_type)
    } else if grid_type == "Wide Capsule"@ {
        Some(appid + image_type)
    } else if grid_type == "Hero"@ {
        Some(appid + "_hero"@ + image_type)
    } else if grid_type == "Logo"@ {
        Some(appid + "_logo"@ + image_type)
    } else if grid_type == "Icon"@ {
        Some(appid + "_icon.jpg"@)
    } else {
        None
    }
}

/// Builds the name of a grid file of an app.
pub fn get_grid_filename(appid: &str, grid_type: &str, image_type: &str) -> (r: Option<String>)
    ensures
        match r {
            Some(s) => grid_filename(appid@, grid_type@, image_type@) == Some(s@),
            None => grid_filename(appid@, grid_type@, image_type@) is None,
        },
{
    let t = String::from_str(grid_type);
    let mut out = String::from_str(appid);
    if t == String::from_str("Capsule") {
        out.append("p");
        out.append(image_type);
    } else if t == String::from_str("Wide Capsule") {
        out.append(image_type);
    } else if t == String::from_str("Hero") {
        out.append("_hero");
        out.append(image_type);
    } else if t == String::from_str("Logo") {
        out.append("_logo");
        out.append(image_type);
    } else if t == String::from_str("Icon") {
        out.append("_icon.jpg");
    } else {
        return None;
    }
    Some(out)
}

/// `i` is the last position of `c` in `s`.
pub open spec fn is_last_at(s: Seq<char>, c: char, i: int) -> bool {
    &&& 0 <= i < s.len()
    &&& s[i] == c
    &&& forall|j: int| i < j < s.len() ==> s[j] != c
}

/// The last position of `c` in `s`.
pub open spec fn last_index_of(s: Seq<char>, c: char) -> int {
    choose|i: int| is_last_at(s, c, i)
}

/// The grid file name for an image at `path`, keeping the image's extension.
pub fn adjust_path(appid: &str, path: &str, grid_type: &str) -> (r: Option<String>)
    requires
        holds_char(path@, '.', 0),
    ensures
        match r {
            Some(s) => grid_filename(appid@, grid_type@, path@.skip(last_index_of(path@, '.'))) == Some(s@),
            None => grid_filename(appid@, grid_type@, path@.skip(last_index_of(path@, '.'))) is None,
        },
{
    let n = path.unicode_len();
    let mut i: usize = n;
    while i > 0 && path.get_char(i - 1) != '.'
        invariant
            n == path@.len(),
            0 <= i <= n,
            forall|j: int| i <= j < n ==> path@[j] != '.',
        decreases i,
    {
        i = i - 1;
    }
    proof {
        if i == 0 {
            let k = choose|k: int| 0 <= k < path@.len() && path@[k] == '.';
            assert(path@[k] != '.');
        }
        let k = last_index_of(path@, '.');
        assert(is_last_at(path@, '.', i - 1));
        if k != i - 1 {
            assert(is_last_at(path@, '.', k));
            assert(false);
        }
    }
    let image_type = sub_string(path, i - 1, n);
    assert(image_type@ =~= path@.skip(i - 1));
    get_grid_filename(appid, grid_type, image_type.as_str())
}

/// The app id and the display name of the grid type under which a file of the grids
/// directory is listed: JSON files and names that do not split are not listed, nor is an
/// icon of an app that is not a shortcut.
pub open spec fn grid_cache_entry_spec(f: Seq<char>, shortcut_ids: Seq<Seq<char>>) -> Option<(Seq<char>, Seq<char>)> {
    if f.len() >= 5 && f.skip(f.len() - 5) == ".json"@ {
        None
    } else if !splittable_grid_name(f) {
        None
    } else {
        let (id, t) = info_from_gridname(f);
        match crate::types::grid_cache_type_spec(t) {
            None => None,
            Some(k) => if !crate::text::eq_ignore_ascii_case(t, "icon"@) || shortcut_ids.contains(id) {
                Some((id, k))
            } else {
                None
            },
        }
    }
}

/// Whether `s` ends with `suffix`.
fn ends_with_str(s: &str, suffix: &str) -> (r: bool)
    ensures
        r == (s@.len() >= suffix@.len() && s@.skip(s@.len() - suffix@.len()) == suffix@),
{
    let n = s.unicode_len();
    let m = suffix.unicode_len();
    if n < m {
        return false;
    }
    let tail = sub_string(s, n - m, n);
    assert(tail@ =~= s@.skip(n - m));
    tail == String::from_str(suffix)
}

/// The view of a list of strings.
pub open spec fn strings_view(v: Seq<String>) -> Seq<Seq<char>> {
    v.map_values(|s: String| s@)
}

/// Whether `ids` holds `id`.
fn contains_id(ids: &Vec<String>, id: &String) -> (r: bool)
    ensures
        r == strings_view(ids@).contains(id@),
{
    let ghost v = strings_view(ids@);
    let mut i: usize = 0;
    while i < ids.len()
        invariant
            0 <= i <= ids@.len(),
            v == strings_view(ids@),
            forall|j: int| 0 <= j < i ==> v[j] != id@,
        decreases ids@.len() - i,
    {
        if ids[i] == *id {
            assert(v[i as int] == id@);
            return true;
        }
        i = i + 1;
    }
    false
}

/// The app id and the grid type's display name under which a file of the grids directory
/// is listed, if it is listed.
pub fn grid_cache_entry(filename: &str, shortcut_ids: &Vec<String>) -> (r: Option<(String, String)>)
    ensures
        match r {
            Some((id, k)) => grid_cache_entry_spec(filename@, strings_view(shortcut_ids@)) == Some((id@, k@)),
            None => grid_cache_entry_spec(filename@, strings_view(shortcut_ids@)) is None,
        },
{
    proof {
        reveal_strlit(".json");
    }
    if ends_with_str(filename, ".json") {
        return None;
    }
    let dot = find_char(filename, '.', 0)?;
    if let Some(u) = find_char(filename, '_', 0) {
        if u > dot {
            return None;
        }
    }
    let (id, grid_type) = get_info_from_gridname(filename.to_owned());
    let key = crate::types::grid_cache_type(&grid_type)?;
    if !crate::text::equals_ignore_ascii_case(grid_type.as_str(), "icon") || contains_id(shortcut_ids, &id) {
        Some((id, key))
    } else {
        None
    }
}

} // verus!
