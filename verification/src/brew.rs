//! Package-manager support: the decision and conversion halves. Finding
//! the executable on disk, running it and decoding its JSON output live
//! with the surrounding runtime, which hands plain values here.

use vstd::prelude::*;

use crate::text::{dec_str_signed, ffind_char, i64_to_string, lemma_ffind_char_at, lemma_ffind_char_none, lines_spec, split_lines, trim, trim_spec};

verus! {

/// One package, installed or found by a search.
pub struct HomebrewItem {
    pub name: String,
    pub description: String,
    pub item_type: HomebrewItemType,
    pub version: Option<String>,
}

/// Whether a package is a formula or a cask.
#[derive(Clone, Copy, PartialEq, Eq, Structural, Debug)]
pub enum HomebrewItemType {
    Formula,
    Cask,
}

/// Options of an install request.
pub struct InstallOptions {
    pub cask: Option<bool>,
}

/// One package with a newer version available.
pub struct OutdatedItem {
    pub name: String,
    pub item_type: HomebrewItemType,
    pub current_version: String,
    pub latest_version: String,
}

/// Spec-level mirror of one package item.
pub struct ItemModel {
    pub name: Seq<char>,
    pub description: Seq<char>,
    pub item_type: HomebrewItemType,
    pub version: Option<Seq<char>>,
}

impl View for HomebrewItem {
    type V = ItemModel;

    open spec fn view(&self) -> ItemModel {
        ItemModel {
            name: self.name@,
            description: self.description@,
            item_type: self.item_type,
            version: match self.version {
                Some(v) => Some(v@),
                None => None,
            },
        }
    }
}

/// Spec-level mirror of one outdated entry.
pub struct OutdatedModel {
    pub name: Seq<char>,
    pub item_type: HomebrewItemType,
    pub current_version: Seq<char>,
    pub latest_version: Seq<char>,
}

impl View for OutdatedItem {
    type V = OutdatedModel;

    open spec fn view(&self) -> OutdatedModel {
        OutdatedModel {
            name: self.name@,
            item_type: self.item_type,
            current_version: self.current_version@,
            latest_version: self.latest_version@,
        }
    }
}

/// The fixed places the executable is looked for, in priority order.
pub open spec fn brew_path_at(i: int) -> Seq<char> {
    if i == 0 {
        "/opt/homebrew/bin/brew"@
    } else if i == 1 {
        "/usr/local/bin/brew"@
    } else {
        "/home/linuxbrew/.linuxbrew/bin/brew"@
    }
}

/// The candidate paths the executable is looked for at, in priority order.
pub fn brew_candidate_paths() -> (r: Vec<String>)
    ensures
        r@.len() == 3,
        forall|i: int| 0 <= i < 3 ==> (#[trigger] r@[i])@ == brew_path_at(i),
{
    let mut r: Vec<String> = Vec::new();
    r.push(String::from_str("/opt/homebrew/bin/brew"));
    r.push(String::from_str("/usr/local/bin/brew"));
    r.push(String::from_str("/home/linuxbrew/.linuxbrew/bin/brew"));
    r
}

/// Picks the first candidate path that exists; `exists` holds one flag per
/// candidate, in the candidates' order.
pub fn detect_brew_path(exists: &Vec<bool>) -> (r: Option<String>)
    requires
        exists@.len() == 3,
    ensures
        match r {
            Some(p) => exists|i: int|
                0 <= i < 3 && (#[trigger] exists@[i]) && p@ == brew_path_at(i) && forall|j: int|
                    0 <= j < i ==> !exists@[j],
            None => forall|i: int| 0 <= i < 3 ==> !(#[trigger] exists@[i]),
        },
{
    let candidates = brew_candidate_paths();
    let mut i: usize = 0;
    while i < 3
        invariant
            exists@.len() == 3,
            candidates@.len() == 3,
            forall|k: int| 0 <= k < 3 ==> (#[trigger] candidates@[k])@ == brew_path_at(k),
            i <= 3,
            forall|j: int| 0 <= j < i ==> !(#[trigger] exists@[j]),
        decreases 3 - i,
    {
        if exists[i] {
            let p = candidates[i].clone();
            return Some(p);
        }
        i = i + 1;
    }
    None
}

/// The absolute path of the executable, from the same existence flags; the
/// runtime caches the answer, which does not change the value.
pub fn get_brew_executable(exists: &Vec<bool>) -> (r: Option<String>)
    requires
        exists@.len() == 3,
    ensures
        match r {
            Some(p) => exists|i: int|
                0 <= i < 3 && (#[trigger] exists@[i]) && p@ == brew_path_at(i) && forall|j: int|
                    0 <= j < i ==> !exists@[j],
            None => forall|i: int| 0 <= i < 3 ==> !(#[trigger] exists@[i]),
        },
{
    detect_brew_path(exists)
}

/// One installed version, as the package metadata lists it.
pub struct BrewInstalledVersion {
    pub version: String,
}

/// The shapes the "installed" field of package metadata takes.
pub enum BrewInstalledField {
    Versions(Vec<BrewInstalledVersion>),
    VersionStrings(Vec<String>),
    VersionString(String),
    Absent,
}

/// The first installed version the field lists, if any.
pub open spec fn first_version_spec(f: BrewInstalledField) -> Option<Seq<char>> {
    match f {
        BrewInstalledField::Versions(v) => if v.len() > 0 {
            Some(v[0].version@)
        } else {
            None
        },
        BrewInstalledField::VersionStrings(v) => if v.len() > 0 {
            Some(v[0]@)
        } else {
            None
        },
        BrewInstalledField::VersionString(s) => Some(s@),
        BrewInstalledField::Absent => None,
    }
}

/// The first installed version the field lists, if any.
pub fn first_installed_version(installed: &BrewInstalledField) -> (r: Option<String>)
    ensures
        match r {
            Some(s) => first_version_spec(*installed) == Some(s@),
            None => first_version_spec(*installed) is None,
        },
{
    match installed {
        BrewInstalledField::Versions(v) => {
            if v.len() > 0 {
                Some(v[0].version.clone())
            } else {
                None
            }
        },
        BrewInstalledField::VersionStrings(v) => {
            if v.len() > 0 {
                Some(v[0].clone())
            } else {
                None
            }
        },
        BrewInstalledField::VersionString(s) => Some(s.clone()),
        BrewInstalledField::Absent => None,
    }
}

/// One formula of the installed-packages metadata.
pub struct BrewInstalledFormulaV2 {
    pub name: String,
    pub desc: Option<String>,
    pub installed: BrewInstalledField,
}

/// One cask of the installed-packages metadata.
pub struct BrewInstalledCaskV2 {
    pub token: String,
    pub desc: Option<String>,
    pub installed: BrewInstalledField,
}

/// The listing entry for one installed formula.
pub open spec fn installed_formula_item(f: BrewInstalledFormulaV2) -> ItemModel {
    ItemModel {
        name: f.name@,
        description: match f.desc {
            Some(d) => d@,
            None => Seq::empty(),
        },
        item_type: HomebrewItemType::Formula,
        version: first_version_spec(f.installed),
    }
}

/// The listing entry for one installed cask.
pub open spec fn installed_cask_item(c: BrewInstalledCaskV2) -> ItemModel {
    ItemModel {
        name: c.token@,
        description: match c.desc {
            Some(d) => d@,
            None => Seq::empty(),
        },
        item_type: HomebrewItemType::Cask,
        version: first_version_spec(c.installed),
    }
}

/// Builds the installed-packages listing from decoded metadata: every
/// formula, then every cask, each with its first installed version.
pub fn get_installed_packages(
    formulae: &Vec<BrewInstalledFormulaV2>,
    casks: &Vec<BrewInstalledCaskV2>,
) -> (r: Vec<HomebrewItem>)
    ensures
        r@.len() == formulae@.len() + casks@.len(),
        forall|i: int|
            0 <= i < formulae@.len() ==> (#[trigger] r@[i])@ == installed_formula_item(
                formulae@[i],
            ),
        forall|i: int|
            0 <= i < casks@.len() ==> (#[trigger] r@[formulae@.len() + i])@ == installed_cask_item(
                casks@[i],
            ),
{
    let mut r: Vec<HomebrewItem> = Vec::new();
    let mut i: usize = 0;
    while i < formulae.len()
        invariant
            i <= formulae@.len(),
            r@.len() == i,
            forall|j: int|
                0 <= j < i ==> (#[trigger] r@[j])@ == installed_formula_item(formulae@[j]),
        decreases formulae@.len() - i,
    {
        let f = &formulae[i];
        let item = HomebrewItem {
            name: f.name.clone(),
            description: match &f.desc {
                Some(d) => d.clone(),
                None => String::new(),
            },
            item_type: HomebrewItemType::Formula,
            version: first_installed_version(&f.installed),
        };
        r.push(item);
        i = i + 1;
    }
    let mut k: usize = 0;
    while k < casks.len()
        invariant
            r@.len() == formulae@.len() + k,
            k <= casks@.len(),
            forall|j: int|
                0 <= j < formulae@.len() ==> (#[trigger] r@[j])@ == installed_formula_item(
                    formulae@[j],
                ),
            forall|j: int|
                0 <= j < k ==> (#[trigger] r@[formulae@.len() + j])@ == installed_cask_item(
                    casks@[j],
                ),
        decreases casks@.len() - k,
    {
        let c = &casks[k];
        let item = HomebrewItem {
            name: c.token.clone(),
            description: match &c.desc {
                Some(d) => d.clone(),
                None => String::new(),
            },
            item_type: HomebrewItemType::Cask,
            version: first_installed_version(&c.installed),
        };
        r.push(item);
        k = k + 1;
    }
    r
}

/// One formula of a metadata query: its stable version, if any.
pub struct BrewQueryFormulaV2 {
    pub name: String,
    pub desc: Option<String>,
    pub stable_version: Option<String>,
}

/// One cask of a metadata query.
pub struct BrewQueryCaskV2 {
    pub token: String,
    pub desc: Option<String>,
    pub version: Option<String>,
}

/// The listing entry for one queried formula.
pub open spec fn query_formula_item(f: BrewQueryFormulaV2) -> ItemModel {
    ItemModel {
        name: f.name@,
        description: match f.desc {
            Some(d) => d@,
            None => Seq::empty(),
        },
        item_type: HomebrewItemType::Formula,
        version: match f.stable_version {
            Some(v) => Some(v@),
            None => None,
        },
    }
}

/// The listing entry for one queried cask.
pub open spec fn query_cask_item(c: BrewQueryCaskV2) -> ItemModel {
    ItemModel {
        name: c.token@,
        description: match c.desc {
            Some(d) => d@,
            None => Seq::empty(),
        },
        item_type: HomebrewItemType::Cask,
        version: match c.version {
            Some(v) => Some(v@),
            None => None,
        },
    }
}

/// Builds the package listing a metadata query yields: every formula with
/// its stable version, then every cask with its version.
pub fn brew_info_items(formulae: &Vec<BrewQueryFormulaV2>, casks: &Vec<BrewQueryCaskV2>) -> (r: Vec<
    HomebrewItem,
>)
    ensures
        r@.len() == formulae@.len() + casks@.len(),
        forall|i: int|
            0 <= i < formulae@.len() ==> (#[trigger] r@[i])@ == query_formula_item(formulae@[i]),
        forall|i: int|
            0 <= i < casks@.len() ==> (#[trigger] r@[formulae@.len() + i])@ == query_cask_item(
                casks@[i],
            ),
{
    let mut r: Vec<HomebrewItem> = Vec::new();
    let mut i: usize = 0;
    while i < formulae.len()
        invariant
            i <= formulae@.len(),
            r@.len() == i,
            forall|j: int| 0 <= j < i ==> (#[trigger] r@[j])@ == query_formula_item(formulae@[j]),
        decreases formulae@.len() - i,
    {
        let f = &formulae[i];
        let item = HomebrewItem {
            name: f.name.clone(),
            description: match &f.desc {
                Some(d) => d.clone(),
                None => String::new(),
            },
            item_type: HomebrewItemType::Formula,
            version: match &f.stable_version {
                Some(v) => Some(v.clone()),
                None => None,
            },
        };
        r.push(item);
        i = i + 1;
    }
    let mut k: usize = 0;
    while k < casks.len()
        invariant
            r@.len() == formulae@.len() + k,
            k <= casks@.len(),
            forall|j: int|
                0 <= j < formulae@.len() ==> (#[trigger] r@[j])@ == query_formula_item(
                    formulae@[j],
                ),
            forall|j: int|
                0 <= j < k ==> (#[trigger] r@[formulae@.len() + j])@ == query_cask_item(casks@[j]),
        decreases casks@.len() - k,
    {
        let c = &casks[k];
        let item = HomebrewItem {
            name: c.token.clone(),
            description: match &c.desc {
                Some(d) => d.clone(),
                None => String::new(),
            },
            item_type: HomebrewItemType::Cask,
            version: match &c.version {
                Some(v) => Some(v.clone()),
                None => None,
            },
        };
        r.push(item);
        k = k + 1;
    }
    r
}

/// One entry of the outdated-packages metadata.
pub struct OutdatedEntry {
    pub name: String,
    pub installed_versions: Vec<String>,
    pub current_version: String,
}

/// The outdated items of one entry list: entries without any installed
/// version are dropped; the rest pair their first installed version with
/// the available one.
pub open spec fn outdated_items_spec(
    entries: Seq<OutdatedEntry>,
    ty: HomebrewItemType,
) -> Seq<OutdatedModel>
    decreases entries.len(),
{
    if entries.len() == 0 {
        Seq::empty()
    } else {
        outdated_items_spec(entries.drop_last(), ty) + {
            let e = entries.last();
            if e.installed_versions.len() > 0 {
                seq![
                    OutdatedModel {
                        name: e.name@,
                        item_type: ty,
                        current_version: e.installed_versions[0]@,
                        latest_version: e.current_version@,
                    },
                ]
            } else {
                Seq::empty()
            }
        }
    }
}

/// The outdated models as spec values.
pub open spec fn outdated_view(s: Seq<OutdatedItem>) -> Seq<OutdatedModel> {
    s.map_values(|o: OutdatedItem| o@)
}

/// Builds the outdated-packages listing from decoded metadata: every
/// formula entry with an installed version, then every such cask entry.
pub fn list_outdated(formulae: &Vec<OutdatedEntry>, casks: &Vec<OutdatedEntry>) -> (r: Vec<
    OutdatedItem,
>)
    ensures
        outdated_view(r@) == outdated_items_spec(formulae@, HomebrewItemType::Formula)
            + outdated_items_spec(casks@, HomebrewItemType::Cask),
{
    let mut r: Vec<OutdatedItem> = Vec::new();
    push_outdated(&mut r, formulae, HomebrewItemType::Formula);
    let ghost mid = outdated_view(r@);
    push_outdated(&mut r, casks, HomebrewItemType::Cask);
    r
}

fn push_outdated(r: &mut Vec<OutdatedItem>, entries: &Vec<OutdatedEntry>, ty: HomebrewItemType)
    ensures
        outdated_view(final(r)@) == outdated_view(old(r)@) + outdated_items_spec(entries@, ty),
{
    let ghost base = outdated_view(r@);
    let mut i: usize = 0;
    proof {
        assert(entries@.take(0) =~= Seq::<OutdatedEntry>::empty());
        assert(base + outdated_items_spec(entries@.take(0), ty) =~= base);
    }
    while i < entries.len()
        invariant
            i <= entries@.len(),
            base == outdated_view(old(r)@),
            outdated_view(r@) == base + outdated_items_spec(entries@.take(i as int), ty),
        decreases entries@.len() - i,
    {
        proof {
            assert(entries@.take(i as int + 1).drop_last() =~= entries@.take(i as int));
            assert(entries@.take(i as int + 1).last() == entries@[i as int]);
        }
        let e = &entries[i];
        let ghost rd = outdated_view(r@);
        if e.installed_versions.len() > 0 {
            let item = OutdatedItem {
                name: e.name.clone(),
                item_type: ty,
                current_version: e.installed_versions[0].clone(),
                latest_version: e.current_version.clone(),
            };
            let ghost iv = item@;
            r.push(item);
            proof {
                assert(outdated_view(r@) =~= rd + seq![iv]);
                assert(rd + seq![iv] =~= base + outdated_items_spec(
                    entries@.take(i as int + 1),
                    ty,
                ));
            }
        } else {
            proof {
                assert(outdated_items_spec(entries@.take(i as int + 1), ty)
                    =~= outdated_items_spec(entries@.take(i as int), ty));
            }
        }
        i = i + 1;
    }
    proof {
        assert(entries@.take(entries@.len() as int) =~= entries@);
    }
}

/// The package names of one search line: the trimmed text before the first
/// colon; a line without a colon names nothing.
pub open spec fn search_name_of_line(l: Seq<char>) -> Option<Seq<char>> {
    let i = ffind_char(l, ':');
    if i < 0 {
        None
    } else {
        Some(trim_spec(l.take(i)))
    }
}

/// The package names of a whole search output, in line order.
pub open spec fn search_names_spec(ls: Seq<Seq<char>>) -> Seq<Seq<char>>
    decreases ls.len(),
{
    if ls.len() == 0 {
        Seq::empty()
    } else {
        search_names_spec(ls.drop_last()) + match search_name_of_line(ls.last()) {
            Some(n) => seq![n],
            None => Seq::empty(),
        }
    }
}

/// Reads the package names out of captured search output: one per line
/// that carries a colon, each the trimmed text before it.
pub fn search_names(output: &str) -> (r: Vec<String>)
    ensures
        r.deep_view() == search_names_spec(lines_spec(output@)),
{
    let lines = split_lines(output);
    let ghost lview = lines.deep_view();
    let mut r: Vec<String> = Vec::new();
    let mut li: usize = 0;
    proof {
        assert(lview.take(0) =~= Seq::<Seq<char>>::empty());
        assert(r.deep_view() =~= Seq::<Seq<char>>::empty());
    }
    while li < lines.len()
        invariant
            lview == lines.deep_view(),
            lview.len() == lines@.len(),
            li <= lines@.len(),
            r.deep_view() == search_names_spec(lview.take(li as int)),
        decreases lines@.len() - li,
    {
        proof {
            assert(lview.take(li as int + 1).drop_last() =~= lview.take(li as int));
            assert(lview.take(li as int + 1).last() == lview[li as int]);
        }
        let line = lines[li].as_str();
        let n = line.unicode_len();
        let mut k: usize = 0;
        let mut col: usize = n;
        while k < n && col == n
            invariant
                n == line@.len(),
                k <= n,
                col == n || (col < n && line@[col as int] == ':'),
                col == n ==> forall|j: int| 0 <= j < k ==> (#[trigger] line@[j]) != ':',
                col < n ==> forall|j: int| 0 <= j < col ==> (#[trigger] line@[j]) != ':',
            decreases n - k + if col == n {
                1int
            } else {
                0int
            },
        {
            if line.get_char(k) == ':' {
                col = k;
            } else {
                k = k + 1;
            }
        }
        let ghost rd = r.deep_view();
        if col < n {
            proof {
                lemma_ffind_char_at(line@, ':', col as int);
            }
            let head = line.substring_char(0, col);
            proof {
                assert(head@ =~= line@.take(col as int));
            }
            let name = trim(head).to_owned();
            let ghost nv = name@;
            r.push(name);
            proof {
                assert(r.deep_view() =~= rd + seq![nv]);
            }
        } else {
            proof {
                lemma_ffind_char_none(line@, ':');
                assert(search_names_spec(lview.take(li as int + 1)) =~= rd);
            }
        }
        li = li + 1;
    }
    proof {
        assert(lview.take(lines@.len() as int) =~= lview);
    }
    r
}

/// Judges one captured package-manager run: success hands back the trimmed
/// standard output; failure reports the captured standard error.
pub fn run_brew(success: bool, stdout: &str, stderr: &str) -> (r: Result<String, String>)
    ensures
        match r {
            Ok(s) => success && s@ == trim_spec(stdout@),
            Err(m) => !success && m@ == "brew command failed: "@ + stderr@,
        },
{
    if success {
        Ok(trim(stdout).to_owned())
    } else {
        Err(String::from_str("brew command failed: ").concat(stderr))
    }
}

/// The argument list of one install run: the install verb, the cask flag
/// when asked for, and the package name.
pub fn brew_install_args(name: &String, cask: bool) -> (r: Vec<String>)
    ensures
        cask ==> r.deep_view() =~= seq!["install"@, "--cask"@, name@],
        !cask ==> r.deep_view() =~= seq!["install"@, name@],
{
    let mut r: Vec<String> = Vec::new();
    r.push(String::from_str("install"));
    if cask {
        r.push(String::from_str("--cask"));
    }
    r.push(name.clone());
    r
}

/// The rendering of an optional exit code in a progress-run report.
pub open spec fn exit_code_text(code: Option<i32>) -> Seq<char> {
    match code {
        Some(c) => "Some("@ + dec_str_signed(c as int) + ")"@,
        None => "None"@,
    }
}

/// Judges one streamed package-manager run after its process has ended: a
/// successful exit is fine; a failed one reports the exit code, or that
/// there was none.
pub fn run_with_progress_verdict(success: bool, exit_code: Option<i32>) -> (r: Result<(), String>)
    ensures
        match r {
            Ok(u) => success,
            Err(m) => !success && m@ == "brew command failed (exit code: "@ + exit_code_text(
                exit_code,
            ) + ")"@,
        },
{
    if success {
        return Ok(());
    }
    let code_text: String = match exit_code {
        Some(c) => {
            let mut t = String::from_str("Some(");
            t.append(i64_to_string(c as i64).as_str());
            t.append(")");
            t
        },
        None => String::from_str("None"),
    };
    let mut msg = String::from_str("brew command failed (exit code: ");
    msg.append(code_text.as_str());
    msg.append(")");
    proof {
        assert(msg@ =~= "brew command failed (exit code: "@ + exit_code_text(exit_code) + ")"@);
    }
    Err(msg)
}

} // verus!
