//! Where ikigai keeps its things: the config home, the layered config file
//! paths under it, and the data home — as path algebra over strings, with
//! the environment passed in. Nothing here touches the filesystem.

use vstd::prelude::*;

use crate::text::{concat_str, copy_str};

verus! {

/// The directory under the XDG config base that every config file lives in.
pub const APP_DIR: &'static str = "ikigai";

/// The directory under `$HOME` that is the data home.
pub const DATA_DIR: &'static str = ".ikigai";

/// Joining `p` onto `base` as a Unix path join does: an absolute `p`
/// replaces `base`; otherwise a `/` goes between them unless `base` is empty
/// or already ends in one.
pub open spec fn join(base: Seq<char>, p: Seq<char>) -> Seq<char> {
    if p.len() > 0 && p[0] == '/' {
        p
    } else if base.len() > 0 && base.last() != '/' {
        base + "/"@ + p
    } else {
        base + p
    }
}

/// Join `p` onto `base` as a Unix path join does.
pub fn join_path(base: &str, p: &str) -> (r: String)
    ensures
        r@ == join(base@, p@),
{
    let pc = crate::text::chars_of(p);
    if pc.len() > 0 && pc[0] == '/' {
        return copy_str(p);
    }
    let bc = crate::text::chars_of(base);
    if bc.len() > 0 && bc[bc.len() - 1] != '/' {
        let a = concat_str(base, "/");
        concat_str(a.as_str(), p)
    } else {
        concat_str(base, p)
    }
}

/// A variable's value, taken as absent when it is unset or set but empty.
pub open spec fn present(v: Option<Seq<char>>) -> Option<Seq<char>> {
    match v {
        Some(s) => if s.len() > 0 {
            Some(s)
        } else {
            None
        },
        None => None,
    }
}

/// The view of an optional string slice.
pub open spec fn opt_str(v: Option<&str>) -> Option<Seq<char>> {
    match v {
        Some(s) => Some(s@),
        None => None,
    }
}

/// The config home: `$XDG_CONFIG_HOME/ikigai`, else `$HOME/.config/ikigai`;
/// an empty value counts as unset; `None` when neither is known.
pub open spec fn config_home_spec(xdg: Option<Seq<char>>, home: Option<Seq<char>>) -> Option<Seq<char>> {
    match present(xdg) {
        Some(x) => Some(join(x, "ikigai"@)),
        None => match present(home) {
            Some(h) => Some(join(join(h, ".config"@), "ikigai"@)),
            None => None,
        },
    }
}

/// The config home with the environment passed in: `$XDG_CONFIG_HOME/ikigai`,
/// else `$HOME/.config/ikigai`, an empty value counting as unset; `None`
/// when neither base is known.
pub fn config_home_from(xdg: Option<&str>, home: Option<&str>) -> (r: Option<String>)
    ensures
        match r {
            Some(p) => config_home_spec(opt_str(xdg), opt_str(home)) == Some(p@),
            None => config_home_spec(opt_str(xdg), opt_str(home)) is None,
        },
{
    match xdg {
        Some(x) => {
            if x.unicode_len() > 0 {
                return Some(join_path(x, APP_DIR));
            }
        },
        None => {},
    }
    match home {
        Some(h) => {
            if h.unicode_len() > 0 {
                let c = join_path(h, ".config");
                return Some(join_path(c.as_str(), APP_DIR));
            }
        },
        None => {},
    }
    None
}

/// The data home with `$HOME` passed in: `$HOME/.ikigai`; an empty or absent
/// `HOME` has none.
pub fn data_home_from(home: Option<&str>) -> (r: Option<String>)
    ensures
        match r {
            Some(p) => present(opt_str(home)) matches Some(h) && p@ == join(h, ".ikigai"@),
            None => present(opt_str(home)) is None,
        },
{
    match home {
        Some(h) => {
            if h.unicode_len() > 0 {
                Some(join_path(h, DATA_DIR))
            } else {
                None
            }
        },
        None => None,
    }
}

/// The path of one `stem` in the data home `home`; an empty stem names
/// nothing.
pub fn data_path_in(home: &str, stem: &str) -> (r: Option<String>)
    ensures
        match r {
            Some(p) => stem@.len() > 0 && p@ == join(home@, stem@),
            None => stem@.len() == 0,
        },
{
    if stem.unicode_len() == 0 {
        None
    } else {
        Some(join_path(home, stem))
    }
}

/// The candidate paths for one config `stem`, lowest precedence first.
pub open spec fn layered_spec(home: Seq<char>, stem: Seq<char>, app: Option<Seq<char>>) -> Seq<
    Seq<char>,
> {
    if stem.len() == 0 {
        Seq::empty()
    } else {
        match present(app) {
            Some(a) => seq![join(home, stem), join(home, a + "."@ + stem)],
            None => seq![join(home, stem)],
        }
    }
}

/// The candidate paths for one config `stem` under `home`, lowest precedence
/// first: the shared file, then `{app}.{stem}` when an app is named (an
/// empty app counts as none). An empty stem yields no paths.
pub fn layered_paths_in(home: &str, stem: &str, app: Option<&str>) -> (r: Vec<String>)
    ensures
        r@.map_values(|s: String| s@) == layered_spec(home@, stem@, opt_str(app)),
{
    let mut paths: Vec<String> = Vec::new();
    if stem.unicode_len() == 0 {
        assert(paths@.map_values(|s: String| s@) =~= Seq::<Seq<char>>::empty());
        return paths;
    }
    paths.push(join_path(home, stem));
    match app {
        Some(a) => {
            if a.unicode_len() > 0 {
                let dotted = concat_str(a, ".");
                let name = concat_str(dotted.as_str(), stem);
                paths.push(join_path(home, name.as_str()));
            }
        },
        None => {},
    }
    assert(paths@.map_values(|s: String| s@) =~= layered_spec(home@, stem@, opt_str(app)));
    paths
}

/// Layering puts the shared file first and the app's override second, each
/// under the same home, and names nothing for an empty stem.
pub proof fn lemma_layering_order(home: Seq<char>, stem: Seq<char>, app: Option<Seq<char>>)
    ensures
        stem.len() == 0 <==> layered_spec(home, stem, app).len() == 0,
        stem.len() > 0 ==> layered_spec(home, stem, app)[0] == join(home, stem),
        layered_spec(home, stem, app).len() == 2 ==> (present(app) matches Some(a)
            && layered_spec(home, stem, app)[1] == join(home, a + "."@ + stem)),
        layered_spec(home, stem, app).len() <= 2,
{
}

} // verus!
