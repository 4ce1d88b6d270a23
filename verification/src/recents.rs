//! Discovery helpers for recent JetBrains projects: version numbers embedded
//! in configuration directory names, the known product definitions, and the
//! assembly of launchable items from project lists.

use vstd::prelude::*;
use indexmap::IndexMap;
use crate::items::LaunchItem;
use crate::matching::Cand;
use crate::result_set::{distinct_ids, entries, result_set_new, result_set_insert};
use crate::strutil::{concat_strs, chars_of, file_name, file_name_of};

verus! {

/// A decimal digit.
pub open spec fn is_digit(c: char) -> bool {
    '0' <= c && c <= '9'
}

/// Positions `p` to `p + len` of `s` all hold digits.
pub open spec fn digits_at(s: Seq<char>, p: int, len: int) -> bool {
    &&& 0 <= p
    &&& 0 <= len
    &&& p + len <= s.len()
    &&& forall|k: int| p <= k < p + len ==> is_digit(#[trigger] s[k])
}

/// The number the digits at `p` to `p + len` spell.
pub open spec fn digits_val(s: Seq<char>, p: int, len: int) -> int
    decreases len,
{
    if len <= 0 {
        0
    } else {
        digits_val(s, p, len - 1) * 10 + (s[p + len - 1] as int - '0' as int)
    }
}

/// At `p`: `n1` digits, one arbitrary character, then `n2` digits.
pub open spec fn version_shape_at(s: Seq<char>, p: int, n1: int, n2: int) -> bool {
    &&& digits_at(s, p, n1)
    &&& digits_at(s, p + n1 + 1, n2)
}

/// The version read at `p` with the longest digit runs that fit, trying the
/// epoch length from `n1` down to one and the minor length from two down to
/// one, as a backtracking pattern matcher would.
pub open spec fn version_at_with(s: Seq<char>, p: int, n1: int) -> Option<(int, int)>
    decreases n1,
{
    if n1 <= 0 {
        None
    } else if version_shape_at(s, p, n1, 2) {
        Some((digits_val(s, p, n1), digits_val(s, p + n1 + 1, 2)))
    } else if version_shape_at(s, p, n1, 1) {
        Some((digits_val(s, p, n1), digits_val(s, p + n1 + 1, 1)))
    } else {
        version_at_with(s, p, n1 - 1)
    }
}

/// The version read at position `p`: one to four digits, any character, one
/// or two digits, longest runs first.
pub open spec fn version_at(s: Seq<char>, p: int) -> Option<(int, int)> {
    version_at_with(s, p, 4)
}

/// The version of the leftmost position at or after `p` where one can be
/// read.
pub open spec fn version_from(s: Seq<char>, p: int) -> Option<(int, int)>
    decreases s.len() - p,
{
    if p < 0 || p >= s.len() {
        None
    } else {
        match version_at(s, p) {
            Some(v) => Some(v),
            None => version_from(s, p + 1),
        }
    }
}

/// The version embedded in the file name of `path`, if any.
pub open spec fn path_version(path: Seq<char>) -> Option<(int, int)> {
    match file_name_of(path) {
        Some(name) => version_from(name, 0),
        None => None,
    }
}

/// A path with an associated version: a pair of epoch and major version.
pub struct VersionedPath {
    /// The path the version was read from.
    pub path: String,
    /// The version as pair of epoch and major version.
    pub version: (u16, u16),
}

impl VersionedPath {
    /// Extract the version number from the given path.
    ///
    /// Return `None` if the path doesn't contain any valid version.
    pub fn extract_version(path: String) -> (r: Option<VersionedPath>)
        ensures
            r matches Some(v) ==> ({
                &&& path_version(path@) == Some((v.version.0 as int, v.version.1 as int))
                &&& v.path@ == path@
            }),
            r is None ==> path_version(path@) is None,
    {
        let name_opt = file_name(path.as_str());
        match name_opt {
            None => None,
            Some(name) => {
                let cs = chars_of(name.as_str());
                let n = cs.len();
                let mut p: usize = 0;
                while p < n
                    invariant
                        p <= n,
                        n == cs@.len(),
                        cs@ == name@,
                        file_name_of(path@) == Some(name@),
                        version_from(cs@, 0) == version_from(cs@, p as int),
                    decreases n - p,
                {
                    match try_version_at(&cs, p) {
                        Some(v) => {
                            proof {
                                assert(version_at(cs@, p as int) == Some((v.0 as int, v.1 as int)));
                                assert(version_from(cs@, p as int) == Some((v.0 as int, v.1 as int)));
                                assert(path_version(path@) == Some((v.0 as int, v.1 as int)));
                            }
                            return Some(VersionedPath { path, version: v });
                        },
                        None => {},
                    }
                    p = p + 1;
                }
                None
            },
        }
    }

    /// Get the path out of this versioned path.
    pub fn into_path(self) -> (r: String)
        ensures
            r == self.path,
    {
        self.path
    }
}

/// Whether `c` is a decimal digit.
fn is_digit_exec(c: char) -> (b: bool)
    ensures
        b == is_digit(c),
{
    '0' <= c && c <= '9'
}

/// Whether `len` digits stand at position `p`.
fn digits_run(name: &Vec<char>, p: usize, len: usize) -> (b: bool)
    requires
        p + len <= name@.len(),
    ensures
        b == digits_at(name@, p as int, len as int),
{
    let nn = name.len();
    let mut k: usize = 0;
    while k < len
        invariant
            k <= len,
            nn == name@.len(),
            p + len <= nn,
            forall|q: int| p <= q < p + k ==> is_digit(#[trigger] name@[q]),
        decreases len - k,
    {
        if !is_digit_exec(name[p + k]) {
            return false;
        }
        k = k + 1;
    }
    true
}

/// The value a short digit run spells is small: one digit stays below ten,
/// and each further digit adds one decimal place.
proof fn lemma_digits_val_bound(s: Seq<char>, p: int, len: int)
    requires
        digits_at(s, p, len),
    ensures
        0 <= digits_val(s, p, len),
        len <= 1 ==> digits_val(s, p, len) <= 9,
        len <= 2 ==> digits_val(s, p, len) <= 99,
        len <= 3 ==> digits_val(s, p, len) <= 999,
        len <= 4 ==> digits_val(s, p, len) <= 9999,
    decreases len,
{
    if len > 0 {
        lemma_digits_val_bound(s, p, len - 1);
        assert(is_digit(s[p + len - 1]));
    }
}

/// The value of the digit run of length `len` at `p`; at most four digits.
fn digits_value(name: &Vec<char>, p: usize, len: usize) -> (v: u16)
    requires
        1 <= len <= 4,
        digits_at(name@, p as int, len as int),
    ensures
        v as int == digits_val(name@, p as int, len as int),
{
    let nn = name.len();
    let mut v: u32 = 0;
    let mut k: usize = 0;
    while k < len
        invariant
            k <= len,
            1 <= len <= 4,
            nn == name@.len(),
            digits_at(name@, p as int, len as int),
            p + len <= nn,
            v as int == digits_val(name@, p as int, k as int),
        decreases len - k,
    {
        proof {
            assert(digits_at(name@, p as int, k as int));
            lemma_digits_val_bound(name@, p as int, k as int);
            assert(is_digit(name@[p + k]));
        }
        v = v * 10 + (name[p + k] as u32 - 48);
        k = k + 1;
    }
    proof {
        lemma_digits_val_bound(name@, p as int, len as int);
    }
    v as u16
}

/// `b` wins over `a` when it is at least as high: among equal versions the
/// later candidate is kept.
pub open spec fn supersedes(b: (int, int), a: (int, int)) -> bool {
    b.0 > a.0 || (b.0 == a.0 && b.1 >= a.1)
}

/// The versioned path of the highest version among `cands`, later
/// candidates winning ties; `None` when no candidate carries a version.
pub open spec fn latest_versioned(cands: Seq<Seq<char>>) -> Option<(Seq<char>, (int, int))>
    decreases cands.len(),
{
    if cands.len() == 0 {
        None
    } else {
        let rest = latest_versioned(cands.drop_last());
        let p = cands.last();
        match path_version(p) {
            Some(v) => match rest {
                Some(b) => if supersedes(v, b.1) {
                    Some((p, v))
                } else {
                    rest
                },
                None => Some((p, v)),
            },
            None => rest,
        }
    }
}

/// A location for configuration of a JetBrains product.
pub struct ConfigLocation {
    /// The vendor configuration directory.
    pub vendor_dir: String,
    /// A glob for configuration directories inside the vendor directory.
    pub config_glob: String,
    /// The file name for recent projects.
    pub projects_filename: String,
}

impl ConfigLocation {
    /// Find the configuration directory of the latest installed product
    /// version among `candidates`, the directories the host's glob walk
    /// found. Among equal versions the candidate walked later wins.
    pub fn find_config_dir_of_latest_version(&self, candidates: &Vec<String>) -> (r: Option<
        VersionedPath,
    >)
        ensures
            r matches Some(v) ==> latest_versioned(candidates.deep_view()) == Some(
                (v.path@, (v.version.0 as int, v.version.1 as int)),
            ),
            r is None ==> latest_versioned(candidates.deep_view()) is None,
    {
        let ghost cv = candidates.deep_view();
        let mut best: Option<VersionedPath> = None;
        let mut i: usize = 0;
        while i < candidates.len()
            invariant
                i <= candidates@.len(),
                cv == candidates.deep_view(),
                best matches Some(b) ==> latest_versioned(cv.take(i as int)) == Some(
                    (b.path@, (b.version.0 as int, b.version.1 as int)),
                ),
                best is None ==> latest_versioned(cv.take(i as int)) is None,
            decreases candidates@.len() - i,
        {
            proof {
                assert(cv[i as int] == candidates@[i as int]@);
                assert(cv.take(i + 1).drop_last() =~= cv.take(i as int));
                assert(cv.take(i + 1).last() == cv[i as int]);
            }
            match VersionedPath::extract_version(candidates[i].clone()) {
                Some(v) => {
                    match &best {
                        Some(b) => {
                            if v.version.0 > b.version.0 || (v.version.0 == b.version.0
                                && v.version.1 >= b.version.1) {
                                best = Some(v);
                            }
                        },
                        None => {
                            best = Some(v);
                        },
                    }
                },
                None => {},
            }
            i = i + 1;
        }
        proof {
            assert(cv.take(candidates@.len() as int) =~= cv);
        }
        best
    }

    /// The path of the recent projects file inside a configuration
    /// directory: the host checks that a file exists there.
    pub fn recent_projects_file_in(&self, config_dir: &str) -> (r: String)
        ensures
            r@ == config_dir@ + "/options/"@ + self.projects_filename@,
    {
        let head = concat_strs(config_dir, "/options/");
        concat_strs(head.as_str(), self.projects_filename.as_str())
    }
}

/// The name of the product at `path`: the contents of its name file when
/// the host could read one, else the file name of the path itself.
pub open spec fn project_name_of(path: Seq<char>, name_file: Option<Seq<char>>) -> Option<
    Seq<char>,
> {
    match name_file {
        Some(contents) => Some(contents),
        None => file_name_of(path),
    }
}

/// Get the name of the JetBrains product at the given path.
///
/// `name_file` carries the contents of the `.idea/.name` file if the host
/// could read it; otherwise the file name of `path` is taken, and `None`
/// is returned if the name cannot be determined either way.
pub fn get_project_name(path: &str, name_file: Option<String>) -> (r: Option<String>)
    ensures
        r matches Some(s) ==> project_name_of(path@, name_file.deep_view()) == Some(s@),
        r is None ==> project_name_of(path@, name_file.deep_view()) is None,
{
    match name_file {
        Some(contents) => Some(contents),
        None => file_name(path),
    }
}

/// A search provider to expose from this service.
pub struct ProviderDefinition {
    /// A human readable label for this provider.
    pub label: String,
    /// The ID (that is, the filename) of the desktop file of the
    /// corresponding app.
    pub desktop_id: String,
    /// The relative object path to expose this provider at.
    pub relative_obj_path: String,
    /// The location of the configuration of the corresponding product.
    pub config: ConfigLocation,
}

impl ProviderDefinition {
    /// The full object path for this provider.
    pub fn objpath(&self) -> (r: String)
        ensures
            r@ == "/de/swsnr/searchprovider/jetbrains/"@ + self.relative_obj_path@,
    {
        concat_strs("/de/swsnr/searchprovider/jetbrains/", self.relative_obj_path.as_str())
    }
}

/// One provider definition from its literal parts.
fn define_provider(
    label: &str,
    desktop_id: &str,
    relative_obj_path: &str,
    vendor_dir: &str,
    config_glob: &str,
    projects_filename: &str,
) -> (r: ProviderDefinition)
    ensures
        r.label@ == label@,
        r.desktop_id@ == desktop_id@,
        r.relative_obj_path@ == relative_obj_path@,
        r.config.vendor_dir@ == vendor_dir@,
        r.config.config_glob@ == config_glob@,
        r.config.projects_filename@ == projects_filename@,
{
    ProviderDefinition {
        label: label.to_owned(),
        desktop_id: desktop_id.to_owned(),
        relative_obj_path: relative_obj_path.to_owned(),
        config: ConfigLocation {
            vendor_dir: vendor_dir.to_owned(),
            config_glob: config_glob.to_owned(),
            projects_filename: projects_filename.to_owned(),
        },
    }
}

/// Known search providers.
///
/// For each definition in this list a corresponding provider file must
/// exist in the service's data; it must refer to the same desktop ID and
/// the same object path. The object path must be unique for each desktop
/// ID, to ensure that this service always launches the right application
/// associated with the search provider.
pub fn providers() -> (r: Vec<ProviderDefinition>)
    ensures
        r@.len() == 10,
{
    let mut v: Vec<ProviderDefinition> = Vec::new();
    v.push(define_provider("CLion (toolbox)", "jetbrains-clion.desktop", "toolbox/clion",
        "JetBrains", "CLion*", "recentProjects.xml"));
    v.push(define_provider("GoLand (toolbox)", "jetbrains-goland.desktop", "toolbox/goland",
        "JetBrains", "GoLand*", "recentProjects.xml"));
    v.push(define_provider("IDEA (toolbox)", "jetbrains-idea.desktop", "toolbox/idea",
        "JetBrains", "IntelliJIdea*", "recentProjects.xml"));
    v.push(define_provider("IDEA Community Edition (toolbox)", "jetbrains-idea-ce.desktop",
        "toolbox/ideace", "JetBrains", "IdeaIC*", "recentProjects.xml"));
    v.push(define_provider("PHPStorm (toolbox)", "jetbrains-phpstorm.desktop",
        "toolbox/phpstorm", "JetBrains", "PhpStorm*", "recentProjects.xml"));
    v.push(define_provider("PyCharm (toolbox)", "jetbrains-pycharm.desktop", "toolbox/pycharm",
        "JetBrains", "PyCharm*", "recentProjects.xml"));
    v.push(define_provider("Rider (toolbox)", "jetbrains-rider.desktop", "toolbox/rider",
        "JetBrains", "Rider*", "recentSolutions.xml"));
    v.push(define_provider("RubyMine (toolbox)", "jetbrains-rubymine.desktop",
        "toolbox/rubymine", "JetBrains", "RubyMine*", "recentProjects.xml"));
    v.push(define_provider("Android Studio (toolbox)", "jetbrains-studio.desktop",
        "toolbox/studio", "Google", "AndroidStudio*", "recentProjects.xml"));
    v.push(define_provider("WebStorm (toolbox)", "jetbrains-webstorm.desktop",
        "toolbox/webstorm", "JetBrains", "WebStorm*", "recentProjects.xml"));
    v
}

/// The id under which a recent project is exposed.
pub open spec fn recent_id(app_id: Seq<char>, path: Seq<char>) -> Seq<char> {
    "jetbrains-recent-project-"@ + app_id + "-"@ + path
}

/// Inserting one entry into built triples: a fresh id goes last, a present
/// id keeps its place and takes the new name and locator.
pub open spec fn upsert(s: Seq<Cand>, c: Cand) -> Seq<Cand> {
    if exists|i: int| 0 <= i < s.len() && (#[trigger] s[i]).0 == c.0 {
        s.map_values(
            |e: Cand|
                if e.0 == c.0 {
                    (e.0, c.1, c.2)
                } else {
                    e
                },
        )
    } else {
        s.push(c)
    }
}

/// The triples of the items built of `(name, path)` project pairs.
pub open spec fn built_items(app_id: Seq<char>, projects: Seq<(Seq<char>, Seq<char>)>) -> Seq<
    Cand,
>
    decreases projects.len(),
{
    if projects.len() == 0 {
        Seq::empty()
    } else {
        let rest = built_items(app_id, projects.drop_last());
        let p = projects.last();
        upsert(rest, (recent_id(app_id, p.1), p.0, p.1))
    }
}

/// Build the result set of an app's recent projects: each `(name, path)`
/// pair becomes an item named `name` whose locator is `path`, stored under
/// the id `recent_id` derives from the app and the path.
pub fn build_recent_items(app_id: &str, projects: &Vec<(String, String)>) -> (r: IndexMap<
    String,
    LaunchItem,
>)
    ensures
        entries(r) == built_items(app_id@, projects.deep_view()),
        distinct_ids(entries(r)),
{
    let ghost pv = projects.deep_view();
    let mut r = result_set_new();
    let mut i: usize = 0;
    while i < projects.len()
        invariant
            i <= projects@.len(),
            pv == projects.deep_view(),
            entries(r) == built_items(app_id@, pv.take(i as int)),
            distinct_ids(entries(r)),
        decreases projects@.len() - i,
    {
        proof {
            assert(pv[i as int] == (projects@[i as int].0@, projects@[i as int].1@));
            assert(pv.take(i + 1).drop_last() =~= pv.take(i as int));
            assert(pv.take(i + 1).last() == pv[i as int]);
        }
        let head = concat_strs("jetbrains-recent-project-", app_id);
        let mid = concat_strs(head.as_str(), "-");
        let id = concat_strs(mid.as_str(), projects[i].1.as_str());
        let item = LaunchItem { name: projects[i].0.clone(), uri: projects[i].1.clone() };
        let ghost eb = entries(r);
        let ghost c: Cand = (id@, item.name@, item.uri@);
        result_set_insert(&mut r, id, item);
        proof {
            if exists|k: int| 0 <= k < eb.len() && (#[trigger] eb[k]).0 == c.0 {
                assert(entries(r) == upsert(eb, c));
                assert forall|k1: int, k2: int|
                    0 <= k1 < k2 < entries(r).len() implies (#[trigger] entries(r)[k1]).0 != (
                #[trigger] entries(r)[k2]).0 by {
                    assert(entries(r)[k1].0 == eb[k1].0);
                    assert(entries(r)[k2].0 == eb[k2].0);
                }
            } else {
                assert(entries(r) == upsert(eb, c));
            }
            assert(entries(r) == built_items(app_id@, pv.take(i + 1)));
        }
        i = i + 1;
    }
    proof {
        assert(pv.take(projects@.len() as int) =~= pv);
    }
    r
}

/// The version readable at position `p`, longest digit runs first.
fn try_version_at(name: &Vec<char>, p: usize) -> (r: Option<(u16, u16)>)
    requires
        p < name@.len(),
    ensures
        r matches Some(v) ==> version_at(name@, p as int) == Some((v.0 as int, v.1 as int)),
        r is None ==> version_at(name@, p as int) is None,
{
    let n = name.len();
    let mut n1: usize = 4;
    loop
        invariant
            1 <= n1 <= 4,
            n == name@.len(),
            p < n,
            version_at(name@, p as int) == version_at_with(name@, p as int, n1 as int),
        decreases n1,
    {
        if n - p > n1 + 2 && digits_run(name, p, n1) && digits_run(name, p + n1 + 1, 2) {
            let v1 = digits_value(name, p, n1);
            let v2 = digits_value(name, p + n1 + 1, 2);
            return Some((v1, v2));
        }
        if n - p > n1 + 1 && digits_run(name, p, n1) && digits_run(name, p + n1 + 1, 1) {
            proof {
                assert(!version_shape_at(name@, p as int, n1 as int, 2));
            }
            let v1 = digits_value(name, p, n1);
            let v2 = digits_value(name, p + n1 + 1, 1);
            return Some((v1, v2));
        }
        proof {
            assert(!version_shape_at(name@, p as int, n1 as int, 2));
            assert(!version_shape_at(name@, p as int, n1 as int, 1));
        }
        if n1 == 1 {
            proof {
                reveal_with_fuel(version_at_with, 2);
                assert(version_at_with(name@, p as int, 1) is None);
            }
            return None;
        }
        n1 = n1 - 1;
    }
}

} // verus!
