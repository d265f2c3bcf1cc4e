//! Where the files of the finder and of Zed lie, from the environment's plain values.
//!
//! Paths are written with `/` between their components.

use vstd::prelude::*;

verus! {

/// A path below a base: a `/` goes between the two unless the base is empty or ends in one.
pub open spec fn joined(base: Seq<char>, rel: Seq<char>) -> Seq<char> {
    if base.len() == 0 || base.last() == '/' {
        base + rel
    } else {
        base + "/"@ + rel
    }
}

/// A text, or a fallback where there is none.
pub open spec fn text_or(o: Option<&str>, fallback: Seq<char>) -> Seq<char> {
    match o {
        Some(s) => s@,
        None => fallback,
    }
}

/// Puts a relative path below a base.
pub fn join_path(base: &str, rel: &str) -> (r: String)
    requires
        rel@.len() > 0 ==> rel@[0] != '/',
    ensures
        r@ == joined(base@, rel@),
{
    let chars = crate::text::chars_of(base);
    let mut r = base.to_owned();
    if chars.len() > 0 && chars[chars.len() - 1] != '/' {
        r.append("/");
    }
    r.append(rel);
    r
}

fn owned_or(o: Option<&str>, fallback: &str) -> (r: String)
    ensures
        r@ == text_or(o, fallback@),
{
    match o {
        Some(s) => s.to_owned(),
        None => fallback.to_owned(),
    }
}

/// The home directory, or the root directory where `HOME` is not set.
pub fn home_dir(home: Option<&str>) -> (r: String)
    ensures
        r@ == text_or(home, "/"@),
{
    owned_or(home, "/")
}

/// The configuration file: below `XDG_CONFIG_HOME` if it is set, else below the home directory.
pub open spec fn preferred_config(xdg: Option<&str>, home: Option<&str>) -> Seq<char> {
    match xdg {
        Some(dir) => joined(dir@, "fff-gpui/config.toml"@),
        None => joined(text_or(home, "/"@), ".config/fff-gpui/config.toml"@),
    }
}

pub fn preferred_config_path(xdg_config_home: Option<&str>, home: Option<&str>) -> (r: String)
    ensures
        r@ == preferred_config(xdg_config_home, home),
{
    proof {
        reveal_strlit("fff-gpui/config.toml");
        reveal_strlit(".config/fff-gpui/config.toml");
    }
    match xdg_config_home {
        Some(dir) => join_path(dir, "fff-gpui/config.toml"),
        None => join_path(home_dir(home).as_str(), ".config/fff-gpui/config.toml"),
    }
}

/// Where the configuration file lay in the past.
pub open spec fn legacy_config(home: Option<&str>) -> Seq<char> {
    joined(text_or(home, "/"@), ".fff-gpui.toml"@)
}

pub fn legacy_config_path(home: Option<&str>) -> (r: String)
    ensures
        r@ == legacy_config(home),
{
    proof {
        reveal_strlit(".fff-gpui.toml");
    }
    join_path(home_dir(home).as_str(), ".fff-gpui.toml")
}

/// Zed's configuration directory.
pub open spec fn zed_config(xdg: Option<&str>, home: Option<&str>) -> Seq<char> {
    match xdg {
        Some(dir) => joined(dir@, "zed"@),
        None => joined(text_or(home, "/"@), ".config/zed"@),
    }
}

pub fn zed_config_dir(xdg_config_home: Option<&str>, home: Option<&str>) -> (r: String)
    ensures
        r@ == zed_config(xdg_config_home, home),
{
    proof {
        reveal_strlit("zed");
        reveal_strlit(".config/zed");
    }
    match xdg_config_home {
        Some(dir) => join_path(dir, "zed"),
        None => join_path(home_dir(home).as_str(), ".config/zed"),
    }
}

pub fn zed_settings_path(xdg_config_home: Option<&str>, home: Option<&str>) -> (r: String)
    ensures
        r@ == joined(zed_config(xdg_config_home, home), "settings.json"@),
{
    proof {
        reveal_strlit("settings.json");
    }
    join_path(zed_config_dir(xdg_config_home, home).as_str(), "settings.json")
}

pub fn zed_local_themes_dir(xdg_config_home: Option<&str>, home: Option<&str>) -> (r: String)
    ensures
        r@ == joined(zed_config(xdg_config_home, home), "themes"@),
{
    proof {
        reveal_strlit("themes");
    }
    join_path(zed_config_dir(xdg_config_home, home).as_str(), "themes")
}

/// Where Zed keeps its extensions; macOS has a place of its own for them.
pub open spec fn zed_extensions(
    macos: bool,
    data_home: Option<&str>,
    home: Option<&str>,
) -> Seq<char> {
    if macos {
        joined(text_or(home, "/"@), "Library/Application Support/Zed/extensions/installed"@)
    } else {
        match data_home {
            Some(dir) => joined(dir@, "zed/extensions/installed"@),
            None => joined(text_or(home, "/"@), ".local/share/zed/extensions/installed"@),
        }
    }
}

pub fn zed_installed_themes_dir(
    macos: bool,
    xdg_data_home: Option<&str>,
    home: Option<&str>,
) -> (r: String)
    ensures
        r@ == zed_extensions(macos, xdg_data_home, home),
{
    proof {
        reveal_strlit("Library/Application Support/Zed/extensions/installed");
        reveal_strlit("zed/extensions/installed");
        reveal_strlit(".local/share/zed/extensions/installed");
    }
    let home = home_dir(home);
    if macos {
        return join_path(home.as_str(), "Library/Application Support/Zed/extensions/installed");
    }
    match xdg_data_home {
        Some(dir) => join_path(dir, "zed/extensions/installed"),
        None => join_path(home.as_str(), ".local/share/zed/extensions/installed"),
    }
}

/// The log file.
pub fn log_path(home: Option<&str>) -> (r: String)
    ensures
        r@ == joined(text_or(home, "/tmp"@), ".local/state/fff-gpui/fff-gpui.log"@),
{
    proof {
        reveal_strlit(".local/state/fff-gpui/fff-gpui.log");
    }
    join_path(owned_or(home, "/tmp").as_str(), ".local/state/fff-gpui/fff-gpui.log")
}

/// The socket on which the resident service listens.
pub fn socket_path(home: Option<&str>) -> (r: String)
    ensures
        r@ == joined(text_or(home, "/tmp"@), ".local/state/fff-gpui/fff-gpui.sock"@),
{
    proof {
        reveal_strlit(".local/state/fff-gpui/fff-gpui.sock");
    }
    join_path(owned_or(home, "/tmp").as_str(), ".local/state/fff-gpui/fff-gpui.sock")
}

/// Where the trackers of opened files and of queries keep their databases. There is no such place
/// without a home directory.
pub open spec fn tracker_paths(home: Option<&str>) -> Option<(Seq<char>, Seq<char>, Seq<char>)> {
    match home {
        Some(home) => {
            let dir = joined(home@, ".local/share/fff"@);
            Some((dir, joined(dir, "frecency.lmdb"@), joined(dir, "queries.lmdb"@)))
        },
        None => None,
    }
}

/// The directory of the trackers, the database of opened files and that of queries.
pub fn tracker_files(home: Option<&str>) -> (r: Option<(String, String, String)>)
    ensures
        (match r {
            Some((dir, frecency, queries)) => Some((dir@, frecency@, queries@)),
            None => None,
        }) == tracker_paths(home),
{
    proof {
        reveal_strlit(".local/share/fff");
        reveal_strlit("frecency.lmdb");
        reveal_strlit("queries.lmdb");
    }
    match home {
        Some(home) => {
            let dir = join_path(home, ".local/share/fff");
            let frecency = join_path(dir.as_str(), "frecency.lmdb");
            let queries = join_path(dir.as_str(), "queries.lmdb");
            Some((dir, frecency, queries))
        },
        None => None,
    }
}

proof fn lemma_joined_twice(base: Seq<char>, dir: Seq<char>, rel: Seq<char>)
    requires
        dir.len() > 0,
        dir.last() != '/',
    ensures
        joined(joined(base, dir), rel) == joined(base, dir + "/"@ + rel),
{
    reveal_strlit("/");
    let inner = joined(base, dir);
    assert(inner.last() == dir.last());
    assert(joined(inner, rel) =~= joined(base, dir + "/"@ + rel));
}

/// A path below a base begins with the base and ends with what is below it; between the two there
/// is one slash, or none where the base is empty.
pub proof fn law_below_a_base(base: Seq<char>, rel: Seq<char>)
    requires
        rel.len() > 0 ==> rel[0] != '/',
    ensures
        base.is_prefix_of(joined(base, rel)),
        rel.is_suffix_of(joined(base, rel)),
        base.len() == 0 ==> joined(base, rel) == rel,
        base.len() > 0 ==> ({
            let cut = joined(base, rel).len() - rel.len();
            cut >= 1 && joined(base, rel)[cut - 1] == '/' && base.len() <= cut <= base.len() + 1 && (
            base.last() == '/' ==> cut == base.len())
        }),
{
    reveal_strlit("/");
    let path = joined(base, rel);
    assert(path.subrange(0, base.len() as int) =~= base);
    assert(path.subrange(path.len() - rel.len(), path.len() as int) =~= rel);
    assert(base.len() == 0 ==> path =~= rel);
}

/// The configuration directory that is set goes before the home directory. Where none is set, it is
/// `.config` there, and the home directory is the root where that is not set either.
pub proof fn law_configuration_directory(
    config: &str,
    home: &str,
    other: Option<&str>,
    standard: &str,
    root: &str,
)
    requires
        standard@ == joined(home@, ".config"@),
        root@ == "/"@,
    ensures
        preferred_config(Some(config), other) == joined(config@, "fff-gpui/config.toml"@),
        preferred_config(None, Some(home)) == preferred_config(Some(standard), other),
        preferred_config(None, None) == preferred_config(None, Some(root)),
        legacy_config(Some(home)) == joined(home@, ".fff-gpui.toml"@),
        legacy_config(None) == legacy_config(Some(root)),
        zed_config(Some(config), other) == joined(config@, "zed"@),
        zed_config(None, Some(home)) == zed_config(Some(standard), other),
        zed_config(None, None) == zed_config(None, Some(root)),
{
    reveal_strlit("/");
    reveal_strlit(".config");
    reveal_strlit("zed");
    reveal_strlit(".config/zed");
    reveal_strlit("fff-gpui/config.toml");
    reveal_strlit(".config/fff-gpui/config.toml");
    assert(".config/zed"@ =~= ".config"@ + "/"@ + "zed"@);
    assert(".config/fff-gpui/config.toml"@ =~= ".config"@ + "/"@ + "fff-gpui/config.toml"@);
    lemma_joined_twice(home@, ".config"@, "zed"@);
    lemma_joined_twice(home@, ".config"@, "fff-gpui/config.toml"@);
}

/// Zed's extensions are in the data directory that is set, and in `.local/share` at home where none
/// is. On macOS they are in its library, whatever is set.
pub proof fn law_extensions_directory(
    data: &str,
    home: &str,
    other: Option<&str>,
    standard: &str,
    root: &str,
)
    requires
        standard@ == joined(home@, ".local/share"@),
        root@ == "/"@,
    ensures
        zed_extensions(false, Some(data), other) == joined(data@, "zed/extensions/installed"@),
        zed_extensions(false, None, Some(home)) == zed_extensions(false, Some(standard), other),
        zed_extensions(false, None, None) == zed_extensions(false, None, Some(root)),
        zed_extensions(true, other, Some(home)) == joined(
            home@,
            "Library/Application Support/Zed/extensions/installed"@,
        ),
        zed_extensions(true, other, None) == zed_extensions(true, Some(data), Some(root)),
{
    reveal_strlit("/");
    reveal_strlit(".local/share");
    reveal_strlit("zed/extensions/installed");
    reveal_strlit(".local/share/zed/extensions/installed");
    assert(".local/share/zed/extensions/installed"@ =~= ".local/share"@ + "/"@
        + "zed/extensions/installed"@);
    lemma_joined_twice(home@, ".local/share"@, "zed/extensions/installed"@);
}

/// The databases of the trackers are two files in one directory of the home directory; without a
/// home directory there are none.
pub proof fn law_tracker_files(home: &str)
    ensures
        tracker_paths(None) is None,
        tracker_paths(Some(home)) == Some(
            (
                joined(home@, ".local/share/fff"@),
                joined(home@, ".local/share/fff/frecency.lmdb"@),
                joined(home@, ".local/share/fff/queries.lmdb"@),
            ),
        ),
{
    reveal_strlit("/");
    reveal_strlit(".local/share/fff");
    reveal_strlit("frecency.lmdb");
    reveal_strlit("queries.lmdb");
    reveal_strlit(".local/share/fff/frecency.lmdb");
    reveal_strlit(".local/share/fff/queries.lmdb");
    assert(".local/share/fff/frecency.lmdb"@ =~= ".local/share/fff"@ + "/"@ + "frecency.lmdb"@);
    assert(".local/share/fff/queries.lmdb"@ =~= ".local/share/fff"@ + "/"@ + "queries.lmdb"@);
    lemma_joined_twice(home@, ".local/share/fff"@, "frecency.lmdb"@);
    lemma_joined_twice(home@, ".local/share/fff"@, "queries.lmdb"@);
}

} // verus!
