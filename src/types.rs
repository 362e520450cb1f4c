use vstd::prelude::*;

verus! {

/// The artwork files that Steam's library cache holds for one app, by kind.
#[allow(non_snake_case)]
#[derive(Debug, Clone, PartialEq, Eq)]
pub struct GridInfo {
    pub icon: String,
    pub capsule: String,
    pub wideCapsule: String,
    pub hero: String,
    pub logo: String,
}

/// An app's id and name.
#[allow(non_snake_case)]
#[derive(Debug, Clone, PartialEq, Eq)]
pub struct GameStruct {
    pub appid: u64,
    pub name: String,
}

/// The display name of a grid type as the user's grids directory names it.
pub open spec fn grid_cache_type_spec(k: Seq<char>) -> Option<Seq<char>> {
    if k == "capsule"@ {
        Some("Capsule"@)
    } else if k == "wide_capsule"@ {
        Some("Wide Capsule"@)
    } else if k == "hero"@ {
        Some("Hero"@)
    } else if k == "logo"@ {
        Some("Logo"@)
    } else if k == "icon"@ {
        Some("Icon"@)
    } else {
        None
    }
}

/// The display name of a grid type as Steam's library cache names it.
pub open spec fn library_cache_type_spec(k: Seq<char>) -> Option<Seq<char>> {
    if k == "library_600x900"@ {
        Some("Capsule"@)
    } else if k == "header"@ || k == "library_header"@ {
        Some("Wide Capsule"@)
    } else if k == "library_hero"@ {
        Some("Hero"@)
    } else if k == "logo"@ {
        Some("Logo"@)
    } else if k == "icon"@ {
        Some("Icon"@)
    } else {
        None
    }
}

fn same(a: &String, b: &str) -> (r: bool)
    ensures
        r == (a@ == b@),
{
    *a == String::from_str(b)
}

/// Looks a grid type of the grids directory up.
pub fn grid_cache_type(key: &String) -> (r: Option<String>)
    ensures
        match r {
            Some(s) => grid_cache_type_spec(key@) == Some(s@),
            None => grid_cache_type_spec(key@) is None,
        },
{
    if same(key, "capsule") {
        Some(String::from_str("Capsule"))
    } else if same(key, "wide_capsule") {
        Some(String::from_str("Wide Capsule"))
    } else if same(key, "hero") {
        Some(String::from_str("Hero"))
    } else if same(key, "logo") {
        Some(String::from_str("Logo"))
    } else if same(key, "icon") {
        Some(String::from_str("Icon"))
    } else {
        None
    }
}

/// Looks a grid type of the library cache up.
pub fn library_cache_type(key: &String) -> (r: Option<String>)
    ensures
        match r {
            Some(s) => library_cache_type_spec(key@) == Some(s@),
            None => library_cache_type_spec(key@) is None,
        },
{
    if same(key, "library_600x900") {
        Some(String::from_str("Capsule"))
    } else if same(key, "header") || same(key, "library_header") {
        Some(String::from_str("Wide Capsule"))
    } else if same(key, "library_hero") {
        Some(String::from_str("Hero"))
    } else if same(key, "logo") {
        Some(String::from_str("Logo"))
    } else if same(key, "icon") {
        Some(String::from_str("Icon"))
    } else {
        None
    }
}

} // verus!
