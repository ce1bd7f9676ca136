//! Paths as the user writes and reads them: `~` for the home directory.

use vstd::prelude::*;

verus! {

/// What `Path::join` makes of a base and a relative part.
pub uninterp spec fn joined(base: Seq<char>, rest: Seq<char>) -> Seq<char>;

/// What `Path::strip_prefix` makes of a path and a base: the rest, if the
/// base is a prefix (by components) of the path.
pub uninterp spec fn stripped(path: Seq<char>, base: Seq<char>) -> Option<Seq<char>>;

/// Calls `dirs::home_dir`. Nothing is claimed of the result: it depends on
/// the environment. A home directory whose path is not valid UTF-8 comes
/// back as `None`.
#[verifier::external_body]
pub(crate) fn home_dir() -> (r: Option<String>) {
    dirs::home_dir().and_then(|p| p.into_os_string().into_string().ok())
}

/// Calls `dirs::config_dir`. Nothing is claimed of the result: it depends on
/// the environment. A directory whose path is not valid UTF-8 comes back as
/// `None`.
#[verifier::external_body]
pub(crate) fn config_dir() -> (r: Option<String>) {
    dirs::config_dir().and_then(|p| p.into_os_string().into_string().ok())
}

/// Calls `Path::join`. Claims: the result is `joined` of the two texts.
#[verifier::external_body]
pub(crate) fn path_join(base: &str, rest: &str) -> (r: String)
    ensures
        r@ == joined(base@, rest@),
{
    std::path::Path::new(base).join(rest).to_string_lossy().into_owned()
}

/// Calls `Path::strip_prefix`. Claims: the result is `stripped` of the two
/// texts.
#[verifier::external_body]
fn path_strip_prefix(path: &str, base: &str) -> (r: Option<String>)
    ensures
        match r {
            Some(t) => stripped(path@, base@) == Some(t@),
            None => stripped(path@, base@) is None,
        },
{
    match std::path::Path::new(path).strip_prefix(base) {
        Ok(rest) => Some(rest.to_string_lossy().into_owned()),
        Err(_) => None,
    }
}

/// `s` starts with `p`.
pub open spec fn starts_with(s: Seq<char>, p: Seq<char>) -> bool {
    p.len() <= s.len() && s.take(p.len() as int) == p
}

/// `path` with a leading `~` put for the home directory `home`: `~/rest`
/// becomes `home` joined with `rest`, and `~` alone becomes `home`.
pub open spec fn expanded(path: Seq<char>, home: Option<Seq<char>>) -> Seq<char> {
    match home {
        Some(h) => if starts_with(path, "~/"@) {
            joined(h, path.skip(2))
        } else if path == "~"@ {
            h
        } else {
            path
        },
        None => path,
    }
}

/// `path` with a leading `~` put for the home directory `home`.
pub fn expand_tilde_with(path: &str, home: Option<&str>) -> (r: String)
    ensures
        r@ == expanded(
            path@,
            match home {
                Some(h) => Some(h@),
                None => None,
            },
        ),
{
    match home {
        Some(h) => {
            let n = path.unicode_len();
            proof {
                reveal_strlit("~/");
                reveal_strlit("~");
            }
            if n >= 2 && path.get_char(0) == '~' && path.get_char(1) == '/' {
                assert(path@.take(2) =~= "~/"@);
                let rest = path.substring_char(2, n);
                assert(rest@ =~= path@.skip(2));
                path_join(h, rest)
            } else if n == 1 && path.get_char(0) == '~' {
                assert(path@ =~= "~"@);
                h.to_owned()
            } else {
                proof {
                    if starts_with(path@, "~/"@) {
                        assert(path@.take(2)[0] == '~');
                        assert(path@.take(2)[1] == '/');
                    }
                    if path@ == "~"@ {
                        assert(path@[0] == '~');
                    }
                }
                path.to_owned()
            }
        },
        None => path.to_owned(),
    }
}

/// `path` with a leading `~` put for the user's home directory, if it is
/// known; any other path comes back as it is.
pub fn expand_tilde(path: &str) -> (r: String)
    ensures
        exists|h: Option<Seq<char>>| r@ == expanded(path@, h),
        !(starts_with(path@, "~/"@) || path@ == "~"@) ==> r@ == path@,
{
    let home = home_dir();
    match home {
        Some(h) => {
            let r = expand_tilde_with(path, Some(h.as_str()));
            assert(r@ == expanded(path@, Some(h@)));
            r
        },
        None => {
            let r = expand_tilde_with(path, None);
            assert(r@ == expanded(path@, None));
            r
        },
    }
}

/// How `path` is shown: under the home directory `home` as `~/rest` (with a
/// trailing `/` for a directory), otherwise as it is.
pub open spec fn shown_path(path: Seq<char>, home: Option<Seq<char>>, is_dir: bool) -> Seq<char> {
    match home {
        Some(h) => match stripped(path, h) {
            Some(rest) => "~/"@ + rest + if is_dir {
                "/"@
            } else {
                Seq::empty()
            },
            None => path,
        },
        None => path,
    }
}

/// How `path` is shown, for the home directory `home`; `is_dir` tells
/// whether the path is a directory.
pub fn display_path_with(path: &str, home: Option<&str>, is_dir: bool) -> (r: String)
    ensures
        r@ == shown_path(
            path@,
            match home {
                Some(h) => Some(h@),
                None => None,
            },
            is_dir,
        ),
{
    match home {
        Some(h) => match path_strip_prefix(path, h) {
            Some(rest) => {
                let mut r = String::new();
                r.append("~/");
                r.append(rest.as_str());
                if is_dir {
                    r.append("/");
                }
                assert(r@ =~= "~/"@ + rest@ + if is_dir {
                    "/"@
                } else {
                    Seq::empty()
                });
                r
            },
            None => path.to_owned(),
        },
        None => path.to_owned(),
    }
}

/// How `path` is shown, for the user's home directory if it is known.
pub fn display_path(path: &str, is_dir: bool) -> (r: String)
    ensures
        exists|h: Option<Seq<char>>| r@ == shown_path(path@, h, is_dir),
{
    let home = home_dir();
    match home {
        Some(h) => {
            let r = display_path_with(path, Some(h.as_str()), is_dir);
            assert(r@ == shown_path(path@, Some(h@), is_dir));
            r
        },
        None => {
            let r = display_path_with(path, None, is_dir);
            assert(r@ == shown_path(path@, None, is_dir));
            r
        },
    }
}

/// Where proj keeps file `file`: under `proj` in the configuration
/// directory, or else in `.config` under the home directory; nowhere when
/// neither is known.
pub open spec fn config_file_at(config_dir: Option<Seq<char>>, home: Option<Seq<char>>, file: Seq<char>) -> Option<Seq<char>> {
    let base = match config_dir {
        Some(d) => Some(d),
        None => match home {
            Some(h) => Some(joined(h, ".config"@)),
            None => None,
        },
    };
    match base {
        Some(b) => Some(joined(joined(b, "proj"@), file)),
        None => None,
    }
}

/// Where proj keeps file `file`, for the given configuration and home
/// directories.
pub fn config_file_in(config_dir: Option<&str>, home: Option<&str>, file: &str) -> (r: Option<String>)
    ensures
        match r {
            Some(p) => config_file_at(opt_text(config_dir), opt_text(home), file@) == Some(p@),
            None => config_file_at(opt_text(config_dir), opt_text(home), file@) is None,
        },
{
    let base = match config_dir {
        Some(d) => d.to_owned(),
        None => match home {
            Some(h) => path_join(h, ".config"),
            None => {
                return None;
            },
        },
    };
    let dir = path_join(base.as_str(), "proj");
    Some(path_join(dir.as_str(), file))
}

/// The view of an optional text.
pub open spec fn opt_text(o: Option<&str>) -> Option<Seq<char>> {
    match o {
        Some(t) => Some(t@),
        None => None,
    }
}

/// Where proj keeps file `file` for this user; `None` when neither the
/// configuration nor the home directory is known.
pub fn config_file(file: &str) -> (r: Option<String>)
    ensures
        r matches Some(p) ==> exists|d: Option<Seq<char>>, h: Option<Seq<char>>|
            config_file_at(d, h, file@) == Some(p@),
{
    let d = config_dir();
    match d {
        Some(dir) => {
            let r = config_file_in(Some(dir.as_str()), None, file);
            assert(config_file_at(Some(dir@), None, file@) == Some(r->0@));
            r
        },
        None => {
            let h = home_dir();
            match h {
                Some(home) => {
                    let r = config_file_in(None, Some(home.as_str()), file);
                    assert(config_file_at(None, Some(home@), file@) == Some(r->0@));
                    r
                },
                None => None,
            }
        },
    }
}

} // verus!
