//! Ignore rules: directory names and path prefixes that workspaces may not
//! be added under without force.

use vstd::prelude::*;
use crate::cli;
use crate::paths;
use crate::text;

verus! {

broadcast use vstd::string::group_string_axioms;

/// Names ignored unless the configuration turns the defaults off.
pub open spec fn default_ignore_names() -> Seq<Seq<char>> {
    seq![
        ".git"@,
        "node_modules"@,
        "target"@,
        "build"@,
        "dist"@,
        ".cache"@,
        ".venv"@,
        "venv"@,
        "__pycache__"@,
    ]
}

/// The `[ignore]` section of the configuration file, each key optional.
pub struct IgnoreSection {
    pub use_defaults: Option<bool>,
    pub names: Option<Vec<String>>,
    pub paths: Option<Vec<String>>,
}

/// The ignore rules in force: lowercase names and path prefixes.
pub struct IgnoreConfig {
    names: Vec<String>,
    paths: Vec<String>,
}

/// `input` with a leading `~/` replaced by the home directory, when there is
/// one.
pub open spec fn spec_expand_home_path(input: Seq<char>, home: Option<Seq<char>>) -> Seq<char> {
    if paths::has_prefix(input, seq!['~', '/']) && home is Some {
        paths::spec_path_join(home->0, input.skip(2))
    } else {
        input
    }
}

/// The names a section lists, lowercased, after the defaults unless it
/// turns them off.
pub open spec fn section_names(sec: IgnoreSection) -> Seq<Seq<char>> {
    let base = if sec.use_defaults.unwrap_or(true) {
        default_ignore_names()
    } else {
        seq![]
    };
    match sec.names {
        Some(v) => base + cli::strings_view(v@).map_values(|n: Seq<char>| text::unicode_lowercase(n)),
        None => base,
    }
}

/// The path prefixes a section lists, with `~/` expanded.
pub open spec fn section_paths(sec: IgnoreSection, home: Option<Seq<char>>) -> Seq<Seq<char>> {
    match sec.paths {
        Some(v) => cli::strings_view(v@).map_values(|p: Seq<char>| spec_expand_home_path(p, home)),
        None => seq![],
    }
}

/// The home directory, as the `directories` crate finds it for the current
/// user (`BaseDirs::new()` and `BaseDirs::home_dir`). It depends on the
/// environment, so nothing is stated of it.
#[verifier::external_body]
fn home_dir() -> (r: Option<String>) {
    directories::BaseDirs::new().map(|b| b.home_dir().to_string_lossy().into_owned())
}

/// `input` with a leading `~/` replaced by `home` (see
/// [`spec_expand_home_path`]).
pub fn expand_home_path(input: &str, home: Option<&str>) -> (r: String)
    ensures
        r@ == spec_expand_home_path(input@, match home {
            Some(h) => Some(h@),
            None => None,
        }),
{
    let s = text::str_to_chars(input);
    let prefixed = s.len() >= 2 && s[0] == '~' && s[1] == '/';
    proof {
        assert(seq!['~', '/'].len() == 2 && seq!['~', '/'][0] == '~' && seq!['~', '/'][1] == '/');
        if s@.len() >= 2 {
            assert(s@.take(2) =~= seq![s@[0], s@[1]]);
        }
        assert(prefixed == paths::has_prefix(input@, seq!['~', '/']));
    }
    match home {
        Some(h) => {
            if prefixed {
                let rest = text::range_to_string(s.as_slice(), 2, s.len());
                assert(rest@ =~= input@.skip(2));
                paths::path_join(h, rest.as_str())
            } else {
                text::chars_to_string(s.as_slice())
            }
        },
        None => text::chars_to_string(s.as_slice()),
    }
}

impl IgnoreConfig {
    /// The ignored names.
    pub closed spec fn spec_names(&self) -> Seq<Seq<char>> {
        cli::strings_view(self.names@)
    }

    /// The ignored path prefixes.
    pub closed spec fn spec_paths(&self) -> Seq<Seq<char>> {
        cli::strings_view(self.paths@)
    }

    /// The rules when there is no configuration file: the default names and
    /// no paths.
    pub fn defaults() -> (r: IgnoreConfig)
        ensures
            r.spec_names() == default_ignore_names(),
            r.spec_paths() == Seq::<Seq<char>>::empty(),
    {
        let names: Vec<String> = vec![
            ".git".to_string(),
            "node_modules".to_string(),
            "target".to_string(),
            "build".to_string(),
            "dist".to_string(),
            ".cache".to_string(),
            ".venv".to_string(),
            "venv".to_string(),
            "__pycache__".to_string(),
        ];
        let r = IgnoreConfig { names, paths: Vec::new() };
        assert(r.spec_names() =~= default_ignore_names());
        assert(r.spec_paths() =~= Seq::<Seq<char>>::empty());
        r
    }

    /// The rules a configuration file gives: `None` when there is no file,
    /// otherwise its `[ignore]` section. `home` expands `~/` in paths.
    pub fn from_section(section: Option<&IgnoreSection>, home: Option<&str>) -> (r: IgnoreConfig)
        ensures
            match section {
                None => r.spec_names() == default_ignore_names() && r.spec_paths() == Seq::<
                    Seq<char>,
                >::empty(),
                Some(sec) => r.spec_names() == section_names(*sec) && r.spec_paths()
                    == section_paths(
                    *sec,
                    match home {
                        Some(h) => Some(h@),
                        None => None,
                    },
                ),
            },
    {
        let mut cfg = IgnoreConfig::defaults();
        match section {
            None => cfg,
            Some(sec) => {
                let use_defaults = match sec.use_defaults {
                    Some(b) => b,
                    None => true,
                };
                if !use_defaults {
                    cfg.names = Vec::new();
                    cfg.paths = Vec::new();
                }
                let ghost base = cfg.spec_names();
                assert(base == if sec.use_defaults.unwrap_or(true) {
                    default_ignore_names()
                } else {
                    seq![]
                }) by {
                    if !use_defaults {
                        assert(cfg.spec_names() =~= Seq::<Seq<char>>::empty());
                    }
                };
                assert(cfg.spec_paths() =~= Seq::<Seq<char>>::empty());
                match &sec.names {
                    Some(extra) => {
                        let mut i: usize = 0;
                        while i < extra.len()
                            invariant
                                i <= extra@.len(),
                                cfg.spec_names() == base + cli::strings_view(extra@.take(i as int)).map_values(
                                    |n: Seq<char>| text::unicode_lowercase(n),
                                ),
                                cfg.spec_paths() == Seq::<Seq<char>>::empty(),
                            decreases extra@.len() - i,
                        {
                            let lowered = text::to_lowercase(extra[i].as_str());
                            let ghost old_names = cfg.spec_names();
                            cfg.names.push(lowered);
                            proof {
                                assert(extra@.take(i + 1) == extra@.take(i as int).push(extra@[i as int]));
                                let f = |n: Seq<char>| text::unicode_lowercase(n);
                                let sv0 = cli::strings_view(extra@.take(i as int));
                                assert(cli::strings_view(extra@.take(i + 1)) =~= sv0.push(extra@[i as int]@));
                                assert(sv0.push(extra@[i as int]@).map_values(f) =~= sv0.map_values(f).push(
                                    f(extra@[i as int]@),
                                ));
                                assert(cfg.spec_names() =~= old_names.push(lowered@));
                                assert(cfg.spec_names() =~= base + cli::strings_view(extra@.take(i + 1)).map_values(
                                    |n: Seq<char>| text::unicode_lowercase(n),
                                ));
                            }
                            i = i + 1;
                        }
                        assert(extra@.take(extra@.len() as int) == extra@);
                    },
                    None => {
                        assert(base + Seq::<Seq<char>>::empty() == base);
                    },
                }
                let ghost hv = match home {
                    Some(h) => Some(h@),
                    None => None,
                };
                let ghost names_done = cfg.spec_names();
                match &sec.paths {
                    Some(extra) => {
                        let mut i: usize = 0;
                        while i < extra.len()
                            invariant
                                i <= extra@.len(),
                                cfg.spec_names() == names_done,
                                hv == match home {
                                    Some(h) => Some(h@),
                                    None => None,
                                },
                                cfg.spec_paths() == cli::strings_view(extra@.take(i as int)).map_values(
                                    |p: Seq<char>| spec_expand_home_path(p, hv),
                                ),
                            decreases extra@.len() - i,
                        {
                            let expanded = expand_home_path(extra[i].as_str(), home);
                            let ghost old_paths = cfg.spec_paths();
                            cfg.paths.push(expanded);
                            proof {
                                assert(extra@.take(i + 1) == extra@.take(i as int).push(extra@[i as int]));
                                let f = |p: Seq<char>| spec_expand_home_path(p, hv);
                                let sv0 = cli::strings_view(extra@.take(i as int));
                                assert(cli::strings_view(extra@.take(i + 1)) =~= sv0.push(extra@[i as int]@));
                                assert(sv0.push(extra@[i as int]@).map_values(f) =~= sv0.map_values(f).push(
                                    f(extra@[i as int]@),
                                ));
                                assert(cfg.spec_paths() =~= old_paths.push(expanded@));
                                assert(cfg.spec_paths() =~= cli::strings_view(extra@.take(i + 1)).map_values(
                                    |p: Seq<char>| spec_expand_home_path(p, hv),
                                ));
                            }
                            i = i + 1;
                        }
                        assert(extra@.take(extra@.len() as int) == extra@);
                    },
                    None => {},
                }
                cfg
            },
        }
    }

    /// The rules a configuration file gives, with `~/` expanded against the
    /// current user's home directory as the `directories` crate finds it.
    /// Whatever that is, the names are exactly those of [`from_section`].
    pub fn load_from_section(section: Option<&IgnoreSection>) -> (r: IgnoreConfig)
        ensures
            match section {
                None => r.spec_names() == default_ignore_names() && r.spec_paths() == Seq::<
                    Seq<char>,
                >::empty(),
                Some(sec) => r.spec_names() == section_names(*sec) && exists|home: Option<Seq<char>>|
                    r.spec_paths() == section_paths(*sec, home),
            },
    {
        let home = home_dir();
        match &home {
            Some(h) => IgnoreConfig::from_section(section, Some(h.as_str())),
            None => IgnoreConfig::from_section(section, None),
        }
    }

    /// Whether the already lowercased name is one of the ignored names.
    pub fn matches_lowercase_name(&self, lowered: &str) -> (r: bool)
        ensures
            r == self.spec_names().contains(lowered@),
    {
        let mut i: usize = 0;
        while i < self.names.len()
            invariant
                i <= self.names@.len(),
                forall|j: int| 0 <= j < i ==> self.spec_names()[j] != lowered@,
            decreases self.names@.len() - i,
        {
            if text::str_eq(self.names[i].as_str(), lowered) {
                assert(self.spec_names()[i as int] == lowered@);
                return true;
            }
            i = i + 1;
        }
        false
    }

    /// Whether the name, lowercased, is one of the ignored names.
    pub fn matches_name(&self, name: &str) -> (r: bool)
        ensures
            r == self.spec_names().contains(text::unicode_lowercase(name@)),
    {
        let candidate = text::to_lowercase(name);
        self.matches_lowercase_name(candidate.as_str())
    }

    /// Whether `path` lies under one of the ignored path prefixes, compared
    /// component by component.
    pub fn matches_path_prefix(&self, path: &str) -> (r: bool)
        ensures
            r == exists|j: int|
                0 <= j < self.spec_paths().len() && paths::spec_path_starts_with(
                    path@,
                    #[trigger] self.spec_paths()[j],
                ),
    {
        let mut i: usize = 0;
        while i < self.paths.len()
            invariant
                i <= self.paths@.len(),
                forall|j: int|
                    0 <= j < i ==> !paths::spec_path_starts_with(path@, #[trigger] self.spec_paths()[j]),
            decreases self.paths@.len() - i,
        {
            assert(self.spec_paths()[i as int] == self.paths@[i as int]@);
            if paths::path_starts_with(path, self.paths[i].as_str()) {
                return true;
            }
            i = i + 1;
        }
        false
    }

    /// Whether the rules block the (already canonicalised) path: its final
    /// name, lowercased, is ignored, or it lies under an ignored prefix.
    pub fn is_ignored(&self, canonical_path: &str) -> (r: bool)
        ensures
            r == ((match paths::spec_file_name(canonical_path@) {
                Some(n) => self.spec_names().contains(text::unicode_lowercase(n)),
                None => false,
            }) || exists|j: int|
                0 <= j < self.spec_paths().len() && paths::spec_path_starts_with(
                    canonical_path@,
                    #[trigger] self.spec_paths()[j],
                )),
    {
        match paths::file_name(canonical_path) {
            Some(name) => {
                if self.matches_name(name.as_str()) {
                    return true;
                }
            },
            None => {},
        }
        self.matches_path_prefix(canonical_path)
    }
}

} // verus!

verus! {

/// A configuration file that does not turn the defaults off keeps every
/// default name ignored, and adds its own names after them.
pub proof fn law_file_names_extend_defaults(sec: IgnoreSection)
    requires
        sec.use_defaults != Some(false),
    ensures
        section_names(sec).len() >= default_ignore_names().len(),
        forall|i: int| 0 <= i < default_ignore_names().len() ==> #[trigger] section_names(sec)[i] == default_ignore_names()[i],
{
}

/// A configuration file that turns the defaults off ignores only the names
/// it lists.
pub proof fn law_disabling_defaults_keeps_only_listed_names(sec: IgnoreSection)
    requires
        sec.use_defaults == Some(false),
    ensures
        section_names(sec) == match sec.names {
            Some(v) => crate::cli::strings_view(v@).map_values(|n: Seq<char>| text::unicode_lowercase(n)),
            None => Seq::<Seq<char>>::empty(),
        },
{
    match sec.names {
        Some(v) => {
            assert(Seq::<Seq<char>>::empty() + crate::cli::strings_view(v@).map_values(|n: Seq<char>| text::unicode_lowercase(n))
                =~= crate::cli::strings_view(v@).map_values(|n: Seq<char>| text::unicode_lowercase(n)));
        },
        None => {},
    }
}

} // verus!

verus! {

/// Which names and path prefixes a configuration section ignores: a name
/// is ignored when it is a default name and the defaults are not turned
/// off (they are on unless `use_defaults` is `false`), or when it is one of
/// the listed names lowercased; a path is under an ignored prefix when it
/// starts, component by component, with one of the listed paths after `~/`
/// expansion. There are no default paths.
pub proof fn law_ignore_rules_membership(sec: IgnoreSection, home: Option<Seq<char>>, x: Seq<char>, path: Seq<char>)
    ensures
        section_names(sec).contains(x) <==> ((sec.use_defaults != Some(false) && default_ignore_names().contains(x))
            || (sec.names matches Some(v) && exists|i: int|
            0 <= i < v@.len() && text::unicode_lowercase(#[trigger] v@[i]@) == x)),
        (exists|j: int|
            0 <= j < section_paths(sec, home).len() && paths::spec_path_starts_with(
                path,
                #[trigger] section_paths(sec, home)[j],
            )) <==> (sec.paths matches Some(v) && exists|i: int|
            0 <= i < v@.len() && paths::spec_path_starts_with(path, spec_expand_home_path(#[trigger] v@[i]@, home))),
{
    let base = if sec.use_defaults.unwrap_or(true) {
        default_ignore_names()
    } else {
        seq![]
    };
    assert(sec.use_defaults.unwrap_or(true) == (sec.use_defaults != Some(false)));
    match sec.names {
        Some(v) => {
            let extra = cli::strings_view(v@).map_values(|n: Seq<char>| text::unicode_lowercase(n));
            let all = base + extra;
            assert(section_names(sec) == all);
            if all.contains(x) {
                let k = choose|k: int| 0 <= k < all.len() && all[k] == x;
                if k >= base.len() {
                    assert(extra[k - base.len()] == x);
                    assert(text::unicode_lowercase(v@[k - base.len()]@) == x);
                } else {
                    assert(base[k] == x);
                }
            }
            if sec.use_defaults != Some(false) && default_ignore_names().contains(x) {
                let k = choose|k: int| 0 <= k < base.len() && base[k] == x;
                assert(all[k] == x);
            }
            if exists|i: int| 0 <= i < v@.len() && text::unicode_lowercase(#[trigger] v@[i]@) == x {
                let i = choose|i: int| 0 <= i < v@.len() && text::unicode_lowercase(#[trigger] v@[i]@) == x;
                assert(all[base.len() + i] == extra[i]);
            }
        },
        None => {
            assert(section_names(sec) == base);
        },
    }
    match sec.paths {
        Some(v) => {
            let ps = section_paths(sec, home);
            if exists|j: int| 0 <= j < ps.len() && paths::spec_path_starts_with(path, #[trigger] ps[j]) {
                let j = choose|j: int| 0 <= j < ps.len() && paths::spec_path_starts_with(path, #[trigger] ps[j]);
                assert(ps[j] == spec_expand_home_path(v@[j]@, home));
            }
            if exists|i: int| 0 <= i < v@.len() && paths::spec_path_starts_with(path, spec_expand_home_path(#[trigger] v@[i]@, home)) {
                let i = choose|i: int| 0 <= i < v@.len() && paths::spec_path_starts_with(path, spec_expand_home_path(#[trigger] v@[i]@, home));
                assert(ps[i] == spec_expand_home_path(v@[i]@, home));
            }
        },
        None => {},
    }
}

} // verus!
