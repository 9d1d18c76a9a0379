//! Data model: catalog entries, groups, the install ledger, and the
//! error and progress-event types shared by the resolver.

use vstd::prelude::*;

verus! {

/// Why a resolver or grouping call failed.
#[derive(Debug)]
pub enum InstallError {
    /// The byte-fetch capability failed (network or URL failure).
    Fetch,
    /// The fetched bytes are not a valid archive.
    Format,
    /// A name (here: a group name) has no matching catalog entry.
    Reference(String),
    /// Extraction or another write to disk failed.
    Io,
}

/// A progress notification: the install of the named component has started.
#[derive(Debug)]
pub struct InstallEvent {
    pub name: String,
}

impl View for InstallEvent {
    type V = Seq<char>;

    open spec fn view(&self) -> Seq<char> {
        self.name@
    }
}

impl DeepView for InstallEvent {
    type V = Seq<char>;

    open spec fn deep_view(&self) -> Seq<char> {
        self.name@
    }
}

/// What one install produced: the version that was installed and the
/// list of paths the archive contained at install time.
#[derive(Debug)]
pub struct InstallData {
    pub version: String,
    pub structure: Vec<String>,
}

/// Mathematical value of an [`InstallData`].
pub ghost struct InstallDataView {
    pub version: Seq<char>,
    pub structure: Seq<Seq<char>>,
}

impl View for InstallData {
    type V = InstallDataView;

    open spec fn view(&self) -> InstallDataView {
        InstallDataView { version: self.version@, structure: self.structure.deep_view() }
    }
}

impl Clone for InstallData {
    fn clone(&self) -> (r: Self)
        ensures
            r@ == self@,
    {
        InstallData { version: self.version.clone(), structure: clone_strings(&self.structure) }
    }
}

/// One catalog entry: an installable component and its metadata.
#[derive(Debug)]
pub struct ModInfo {
    pub name: String,
    pub author: String,
    pub version: String,
    pub download_url: String,
    pub git_path: Option<String>,
    pub group: String,
    pub dependencies: Option<Vec<String>>,
    pub install_location: Option<String>,
    pub beta: bool,
}

/// Mathematical value of a [`ModInfo`].
pub ghost struct ModInfoView {
    pub name: Seq<char>,
    pub author: Seq<char>,
    pub version: Seq<char>,
    pub download_url: Seq<char>,
    pub git_path: Option<Seq<char>>,
    pub group: Seq<char>,
    pub dependencies: Option<Seq<Seq<char>>>,
    pub install_location: Option<Seq<char>>,
    pub beta: bool,
}

impl View for ModInfo {
    type V = ModInfoView;

    open spec fn view(&self) -> ModInfoView {
        ModInfoView {
            name: self.name@,
            author: self.author@,
            version: self.version@,
            download_url: self.download_url@,
            git_path: match self.git_path {
                Option::Some(p) => Option::Some(p@),
                Option::None => Option::None,
            },
            group: self.group@,
            dependencies: match self.dependencies {
                Option::Some(d) => Option::Some(d.deep_view()),
                Option::None => Option::None,
            },
            install_location: match self.install_location {
                Option::Some(p) => Option::Some(p@),
                Option::None => Option::None,
            },
            beta: self.beta,
        }
    }
}

impl Clone for ModInfo {
    fn clone(&self) -> (r: Self)
        ensures
            r@ == self@,
    {
        let r = ModInfo {
            name: self.name.clone(),
            author: self.author.clone(),
            version: self.version.clone(),
            download_url: self.download_url.clone(),
            git_path: clone_opt_string(&self.git_path),
            group: self.group.clone(),
            dependencies: match &self.dependencies {
                Option::Some(d) => Option::Some(clone_strings(d)),
                Option::None => Option::None,
            },
            install_location: clone_opt_string(&self.install_location),
            beta: self.beta,
        };
        r
    }
}

/// A display group: components whose `group` field names it are shown
/// together, and groups with a lower rank are shown first.
#[derive(Debug)]
pub struct Group {
    pub rank: u8,
    pub name: String,
}

/// Mathematical value of a [`Group`].
pub ghost struct GroupView {
    pub rank: u8,
    pub name: Seq<char>,
}

impl View for Group {
    type V = GroupView;

    open spec fn view(&self) -> GroupView {
        GroupView { rank: self.rank, name: self.name@ }
    }
}

impl Clone for Group {
    fn clone(&self) -> (r: Self)
        ensures
            r@ == self@,
    {
        Group { rank: self.rank, name: self.name.clone() }
    }
}

/// Clones a vector of strings, keeping its view.
pub(crate) fn clone_strings(v: &Vec<String>) -> (r: Vec<String>)
    ensures
        r.deep_view() == v.deep_view(),
{
    let mut r: Vec<String> = Vec::new();
    let mut i: usize = 0;
    while i < v.len()
        invariant
            i <= v.len(),
            r@.len() == i,
            forall|j: int| 0 <= j < i ==> r@[j]@ == v@[j]@,
        decreases v.len() - i,
    {
        r.push(v[i].clone());
        i = i + 1;
    }
    proof {
        assert(r.deep_view() =~~= v.deep_view());
    }
    r
}

/// Clones an optional string, keeping its view.
fn clone_opt_string(v: &Option<String>) -> (r: Option<String>)
    ensures
        match *v {
            Option::Some(s) => r matches Option::Some(t) && t@ == s@,
            Option::None => r is None,
        },
{
    match v {
        Option::Some(s) => Option::Some(s.clone()),
        Option::None => Option::None,
    }
}

/// The install ledger: a record per component name of what is installed.
/// Its mathematical value is a map from component name to install record;
/// the entry list keeps one entry per name.
#[derive(Debug)]
pub struct InstallDatas {
    mods: Vec<(String, InstallData)>,
}

/// The map that an entry list stands for: later entries win.
pub open spec fn ledger_map(s: Seq<(String, InstallData)>) -> Map<Seq<char>, InstallDataView>
    decreases s.len(),
{
    if s.len() == 0 {
        Map::empty()
    } else {
        ledger_map(s.drop_last()).insert(s.last().0@, s.last().1@)
    }
}

/// The names of an entry list, in entry order.
pub open spec fn entry_names(s: Seq<(String, InstallData)>) -> Seq<Seq<char>> {
    s.map_values(|e: (String, InstallData)| e.0@)
}

impl View for InstallDatas {
    type V = Map<Seq<char>, InstallDataView>;

    closed spec fn view(&self) -> Map<Seq<char>, InstallDataView> {
        ledger_map(self.mods@)
    }
}

/// A name is in the ledger map exactly when some entry carries it.
proof fn lemma_ledger_map_dom(s: Seq<(String, InstallData)>, k: Seq<char>)
    ensures
        ledger_map(s).contains_key(k) <==> exists|i: int|
            0 <= i < s.len() && s[i].0@ == k,
    decreases s.len(),
{
    if s.len() > 0 {
        lemma_ledger_map_dom(s.drop_last(), k);
        if ledger_map(s).contains_key(k) && s.last().0@ != k {
            let i = choose|i: int| 0 <= i < s.drop_last().len() && s.drop_last()[i].0@ == k;
            assert(s[i].0@ == k);
        }
        if exists|i: int| 0 <= i < s.len() && s[i].0@ == k {
            let i = choose|i: int| 0 <= i < s.len() && s[i].0@ == k;
            if i < s.len() - 1 {
                assert(s.drop_last()[i].0@ == k);
            }
        }
    }
}

/// In a list with unique names, the entry that carries a name gives its value.
proof fn lemma_ledger_map_index(s: Seq<(String, InstallData)>, i: int)
    requires
        unique_names(s),
        0 <= i < s.len(),
    ensures
        ledger_map(s).contains_key(s[i].0@),
        ledger_map(s)[s[i].0@] == s[i].1@,
    decreases s.len(),
{
    lemma_ledger_map_dom(s, s[i].0@);
    if i < s.len() - 1 {
        assert(s.drop_last()[i] == s[i]);
        lemma_ledger_map_index(s.drop_last(), i);
        assert(s[s.len() - 1].0@ != s[i].0@);
    }
}

/// With unique names, the map has as many keys as the list has entries.
proof fn lemma_ledger_map_len(s: Seq<(String, InstallData)>)
    requires
        unique_names(s),
    ensures
        ledger_map(s).dom().finite(),
        ledger_map(s).dom().len() == s.len(),
    decreases s.len(),
{
    if s.len() > 0 {
        assert(unique_names(s.drop_last())) by {
            assert(forall|i: int, j: int|
                0 <= i < j < s.drop_last().len() ==> s.drop_last()[i] == s[i]
                    && s.drop_last()[j] == s[j]);
        }
        lemma_ledger_map_len(s.drop_last());
        lemma_ledger_map_dom(s.drop_last(), s.last().0@);
        assert(forall|i: int| 0 <= i < s.len() - 1 ==> s[i].0@ != s.last().0@);
        assert(!ledger_map(s.drop_last()).contains_key(s.last().0@));
    }
}

/// No two entries carry the same name.
pub open spec fn unique_names(s: Seq<(String, InstallData)>) -> bool {
    forall|i: int, j: int| 0 <= i < j < s.len() ==> s[i].0@ != s[j].0@
}

impl InstallDatas {
    /// The representation keeps one entry per name.
    pub closed spec fn wf(&self) -> bool {
        unique_names(self.mods@)
    }

    /// The empty ledger: no component has ever been recorded as installed.
    pub fn empty() -> (r: InstallDatas)
        ensures
            r.wf(),
            r@ == Map::<Seq<char>, InstallDataView>::empty(),
    {
        InstallDatas { mods: Vec::new() }
    }

    /// How many components the ledger has a record for.
    pub fn len(&self) -> (n: usize)
        requires
            self.wf(),
        ensures
            n == self@.dom().len(),
    {
        proof {
            lemma_ledger_map_len(self.mods@);
        }
        self.mods.len()
    }

    /// The entries the ledger holds, one per recorded name.
    pub fn entries(&self) -> (r: &Vec<(String, InstallData)>)
        ensures
            unique_names(r@) == self.wf(),
            ledger_map(r@) == self@,
    {
        &self.mods
    }

    /// Looks a component name up.
    pub fn get(&self, name: &String) -> (r: Option<&InstallData>)
        requires
            self.wf(),
        ensures
            match r {
                Option::Some(d) => self@.contains_key(name@) && self@[name@] == d@,
                Option::None => !self@.contains_key(name@),
            },
    {
        let mut i: usize = 0;
        while i < self.mods.len()
            invariant
                i <= self.mods.len(),
                self.wf(),
                forall|j: int| 0 <= j < i ==> self.mods@[j].0@ != name@,
            decreases self.mods.len() - i,
        {
            if self.mods[i].0 == *name {
                proof {
                    lemma_ledger_map_index(self.mods@, i as int);
                }
                return Option::Some(&self.mods[i].1);
            }
            i = i + 1;
        }
        proof {
            lemma_ledger_map_dom(self.mods@, name@);
        }
        Option::None
    }

    /// Records (or replaces) the install record for a name.
    pub fn insert(&mut self, name: String, data: InstallData)
        requires
            old(self).wf(),
        ensures
            final(self).wf(),
            final(self)@ == old(self)@.insert(name@, data@),
    {
        let ghost old_mods = self.mods@;
        let mut kept: Vec<(String, InstallData)> = Vec::new();
        let mut i: usize = 0;
        while i < self.mods.len()
            invariant
                i <= self.mods.len(),
                self.mods@ == old_mods,
                unique_names(old_mods),
                unique_names(kept@),
                forall|j: int| 0 <= j < kept@.len() ==> #[trigger] kept@[j].0@ != name@,
                ledger_map(kept@) == ledger_map(old_mods.take(i as int)).remove(name@),
                forall|j: int| 0 <= j < kept@.len() ==> exists|l: int|
                    0 <= l < i && old_mods[l].0@ == #[trigger] kept@[j].0@,
            decreases self.mods.len() - i,
        {
            let ghost kept_before = kept@;
            if !(self.mods[i].0 == name) {
                let e = (self.mods[i].0.clone(), self.mods[i].1.clone());
                proof {
                    assert(forall|j: int| 0 <= j < kept_before.len() ==> #[trigger] kept_before[j].0@
                        != old_mods[i as int].0@) by {
                        assert(forall|j: int, l: int|
                            0 <= j < kept_before.len() && 0 <= l < i && old_mods[l].0@
                                == kept_before[j].0@ ==> kept_before[j].0@ != old_mods[i as int].0@);
                    }
                }
                kept.push(e);
                proof {
                    assert(kept@.drop_last() =~= kept_before);
                    assert(ledger_map(kept@) == ledger_map(kept_before).insert(
                        old_mods[i as int].0@,
                        old_mods[i as int].1@,
                    ));
                    assert(old_mods.take(i + 1 as int).drop_last() =~= old_mods.take(i as int));
                    assert(ledger_map(kept@) =~= ledger_map(old_mods.take(i + 1 as int)).remove(
                        name@,
                    ));
                }
            } else {
                proof {
                    assert(old_mods.take(i + 1 as int).drop_last() =~= old_mods.take(i as int));
                    assert(ledger_map(kept@) =~= ledger_map(old_mods.take(i + 1 as int)).remove(
                        name@,
                    ));
                }
            }
            i = i + 1;
        }
        proof {
            assert(old_mods.take(old_mods.len() as int) =~= old_mods);
        }
        let ghost kept_all = kept@;
        kept.push((name, data));
        proof {
            assert(kept@.drop_last() =~= kept_all);
            assert(ledger_map(kept@) == ledger_map(kept_all).insert(name@, data@));
            assert(ledger_map(kept@) =~= ledger_map(old_mods).insert(name@, data@));
        }
        self.mods = kept;
    }

    /// Merges two ledgers; where both record a name, `that` wins.
    pub fn merge(&self, that: &InstallDatas) -> (r: InstallDatas)
        requires
            self.wf(),
            that.wf(),
        ensures
            r.wf(),
            r@ == self@.union_prefer_right(that@),
    {
        let mut r = InstallDatas::empty();
        let mut i: usize = 0;
        while i < self.mods.len()
            invariant
                i <= self.mods.len(),
                self.wf(),
                r.wf(),
                r@ == ledger_map(self.mods@.take(i as int)),
            decreases self.mods.len() - i,
        {
            r.insert(self.mods[i].0.clone(), self.mods[i].1.clone());
            proof {
                assert(self.mods@.take(i + 1 as int).drop_last() =~= self.mods@.take(i as int));
            }
            i = i + 1;
        }
        proof {
            assert(self.mods@.take(self.mods@.len() as int) =~= self.mods@);
        }
        let mut j: usize = 0;
        while j < that.mods.len()
            invariant
                j <= that.mods.len(),
                that.wf(),
                r.wf(),
                r@ == self@.union_prefer_right(ledger_map(that.mods@.take(j as int))),
            decreases that.mods.len() - j,
        {
            r.insert(that.mods[j].0.clone(), that.mods[j].1.clone());
            proof {
                assert(that.mods@.take(j + 1 as int).drop_last() =~= that.mods@.take(j as int));
                assert(r@ =~= self@.union_prefer_right(ledger_map(that.mods@.take(j + 1 as int))));
            }
            j = j + 1;
        }
        proof {
            assert(that.mods@.take(that.mods@.len() as int) =~= that.mods@);
        }
        r
    }
}

impl Default for InstallDatas {
    /// The default ledger is the empty one.
    fn default() -> (r: InstallDatas)
        ensures
            r.wf(),
            r@ == Map::<Seq<char>, InstallDataView>::empty(),
    {
        InstallDatas::empty()
    }
}

/// The persisted unit: the install root and the ledger.
#[derive(Debug)]
pub struct SavedState {
    pub gorilla_path: String,
    pub version_data: InstallDatas,
}

/// Merging a ledger with the empty ledger, on either side, gives it back.
pub proof fn lemma_merge_identity(m: Map<Seq<char>, InstallDataView>)
    ensures
        m.union_prefer_right(Map::empty()) == m,
        Map::<Seq<char>, InstallDataView>::empty().union_prefer_right(m) == m,
{
    assert(m.union_prefer_right(Map::empty()) =~= m);
    assert(Map::<Seq<char>, InstallDataView>::empty().union_prefer_right(m) =~= m);
}

/// For a name both ledgers record, the merge keeps the right-hand record.
pub proof fn lemma_merge_override(
    a: Map<Seq<char>, InstallDataView>,
    b: Map<Seq<char>, InstallDataView>,
    k: Seq<char>,
)
    requires
        a.contains_key(k),
        b.contains_key(k),
    ensures
        a.union_prefer_right(b).contains_key(k),
        a.union_prefer_right(b)[k] == b[k],
{
}

/// A name only the left ledger records survives with the left-hand record.
pub proof fn lemma_merge_left_preserved(
    a: Map<Seq<char>, InstallDataView>,
    b: Map<Seq<char>, InstallDataView>,
    k: Seq<char>,
)
    requires
        a.contains_key(k),
        !b.contains_key(k),
    ensures
        a.union_prefer_right(b).contains_key(k),
        a.union_prefer_right(b)[k] == a[k],
{
}

} // verus!
