//! The tag table: tag names, each with the directories it labels.
use vstd::prelude::*;
use crate::sorted::{sorted_unique, strictly_sorted};
use crate::text::{copy_strings, str_eq, views};
use crate::util::{expand_path_with_home, home_dir, opt_view, tilde_backslash, tilde_expanded};


verus! {

/// The version written into a new configuration.
pub const APP_VERSION: &'static str = "0.0.3";

/// The directories that one tag labels.
#[derive(Debug, PartialEq, Eq)]
pub struct Tag {
    pub paths: Vec<String>,
}

/// The stored configuration: a version, the tag table, and the paths of the
/// previous run, if they were kept.
///
/// Tag names are unique within `tags`.
#[derive(Debug, PartialEq, Eq)]
pub struct ConfigFile {
    pub version: String,
    pub tags: Vec<(String, Tag)>,
    pub last_paths: Option<Vec<String>>,
}

/// The configuration as plain values.
pub struct ConfigView {
    pub version: Seq<char>,
    pub tags: Map<Seq<char>, Seq<Seq<char>>>,
    pub last_paths: Option<Seq<Seq<char>>>,
}

/// The tag names of a table, in its order.
pub open spec fn entry_names(entries: Seq<(String, Tag)>) -> Seq<Seq<char>> {
    entries.map_values(|e: (String, Tag)| e.0@)
}

/// The tag table as a map from tag name to its directories.
pub open spec fn tag_map(entries: Seq<(String, Tag)>) -> Map<Seq<char>, Seq<Seq<char>>>
    decreases entries.len(),
{
    if entries.len() == 0 {
        Map::empty()
    } else {
        tag_map(entries.drop_last()).insert(entries.last().0@, views(entries.last().1.paths@))
    }
}

/// The optional list as character sequences.
pub open spec fn opt_views(o: Option<Vec<String>>) -> Option<Seq<Seq<char>>> {
    match o {
        Some(v) => Some(views(v@)),
        None => None,
    }
}

impl View for ConfigFile {
    type V = ConfigView;

    open spec fn view(&self) -> ConfigView {
        ConfigView {
            version: self.version@,
            tags: tag_map(self.tags@),
            last_paths: opt_views(self.last_paths),
        }
    }
}

/// Entry `i` of a table with unique names is what the map holds for its name.
pub proof fn lemma_entry_in_map(entries: Seq<(String, Tag)>, i: int)
    requires
        entry_names(entries).no_duplicates(),
        0 <= i < entries.len(),
    ensures
        tag_map(entries).contains_key(entries[i].0@),
        tag_map(entries)[entries[i].0@] == views(entries[i].1.paths@),
    decreases entries.len(),
{
    if i < entries.len() - 1 {
        let front = entries.drop_last();
        assert(entry_names(front) =~= entry_names(entries).drop_last());
        assert(entry_names(entries)[i] == entries[i].0@);
        assert(entry_names(entries)[entries.len() - 1] == entries.last().0@);
        lemma_entry_in_map(front, i);
    }
}

/// A name is a key of the map exactly when some entry carries it.
pub proof fn lemma_map_keys(entries: Seq<(String, Tag)>, k: Seq<char>)
    ensures
        tag_map(entries).contains_key(k) <==> entry_names(entries).contains(k),
    decreases entries.len(),
{
    if entries.len() > 0 {
        let front = entries.drop_last();
        lemma_map_keys(front, k);
        assert(entry_names(front) =~= entry_names(entries).drop_last());
        assert(entry_names(entries)[entries.len() - 1] == entries.last().0@);
        if entry_names(front).contains(k) {
            let j = choose|j: int| 0 <= j < entry_names(front).len() && entry_names(front)[j] == k;
            assert(entry_names(entries)[j] == k);
        }
        if entry_names(entries).contains(k) {
            let j = choose|j: int| 0 <= j < entry_names(entries).len() && entry_names(entries)[j] == k;
            if j < entries.len() - 1 {
                assert(entry_names(front)[j] == k);
            }
        }
    }
}

/// The directories of `paths` other than `dir`, in their order.
pub open spec fn without(paths: Seq<Seq<char>>, dir: Seq<char>) -> Seq<Seq<char>>
    decreases paths.len(),
{
    if paths.len() == 0 {
        paths
    } else {
        let rest = without(paths.drop_last(), dir);
        if paths.last() == dir {
            rest
        } else {
            rest.push(paths.last())
        }
    }
}

/// Replacing an entry by one of the same name changes the map at that name
/// only.
pub proof fn lemma_map_update(entries: Seq<(String, Tag)>, i: int, e: (String, Tag))
    requires
        entry_names(entries).no_duplicates(),
        0 <= i < entries.len(),
        e.0@ == entries[i].0@,
    ensures
        tag_map(entries.update(i, e)) == tag_map(entries).insert(e.0@, views(e.1.paths@)),
        entry_names(entries.update(i, e)) == entry_names(entries),
    decreases entries.len(),
{
    let upd = entries.update(i, e);
    assert(entry_names(upd) =~= entry_names(entries));
    let front = entries.drop_last();
    assert(entry_names(front) =~= entry_names(entries).drop_last());
    if i == entries.len() - 1 {
        assert(upd.drop_last() =~= front);
        assert(tag_map(upd) =~= tag_map(entries).insert(e.0@, views(e.1.paths@)));
    } else {
        assert(upd.drop_last() =~= front.update(i, e));
        lemma_map_update(front, i, e);
        assert(entry_names(entries)[i] != entry_names(entries)[entries.len() - 1]);
        assert(tag_map(upd) =~= tag_map(entries).insert(e.0@, views(e.1.paths@)));
    }
}

/// Dropping an entry removes its name from the map.
pub proof fn lemma_map_remove(entries: Seq<(String, Tag)>, i: int)
    requires
        entry_names(entries).no_duplicates(),
        0 <= i < entries.len(),
    ensures
        tag_map(entries.remove(i)) == tag_map(entries).remove(entries[i].0@),
        entry_names(entries.remove(i)) == entry_names(entries).remove(i),
    decreases entries.len(),
{
    let rem = entries.remove(i);
    assert(entry_names(rem) =~= entry_names(entries).remove(i));
    let front = entries.drop_last();
    assert(entry_names(front) =~= entry_names(entries).drop_last());
    let name = entries[i].0@;
    if i == entries.len() - 1 {
        assert(rem =~= front);
        lemma_map_keys(front, name);
        if entry_names(front).contains(name) {
            let j = choose|j: int| 0 <= j < entry_names(front).len() && entry_names(front)[j] == name;
            assert(entry_names(entries)[j] == entry_names(entries)[i]);
        }
        assert(tag_map(rem) =~= tag_map(entries).remove(name));
    } else {
        assert(rem.drop_last() =~= front.remove(i));
        lemma_map_remove(front, i);
        assert(entry_names(entries)[i] != entry_names(entries)[entries.len() - 1]);
        assert(rem.last() == entries.last());
        assert(tag_map(rem) =~= tag_map(entries).remove(name));
    }
}

impl ConfigFile {
    /// Tag names are unique.
    pub open spec fn wf(&self) -> bool {
        entry_names(self.tags@).no_duplicates()
    }

    /// An empty configuration of the current version.
    pub fn new() -> (r: ConfigFile)
        ensures
            r.wf(),
            r@.version == APP_VERSION@,
            r@.tags == Map::<Seq<char>, Seq<Seq<char>>>::empty(),
            r@.last_paths is None,
    {
        let r = ConfigFile { version: APP_VERSION.to_string(), tags: Vec::new(), last_paths: None };
        assert(r@.tags =~= Map::<Seq<char>, Seq<Seq<char>>>::empty());
        r
    }

    /// The position of the tag called `name`, if there is one.
    pub fn find_tag(&self, name: &str) -> (r: Option<usize>)
        requires
            self.wf(),
        ensures
            r is None <==> !self@.tags.contains_key(name@),
            r is Some ==> r->Some_0 < self.tags@.len() && self.tags@[r->Some_0 as int].0@ == name@,
            r is Some ==> self@.tags[name@] == views(self.tags@[r->Some_0 as int].1.paths@),
    {
        let mut i: usize = 0;
        while i < self.tags.len()
            invariant
                self.wf(),
                i <= self.tags@.len(),
                forall|j: int| 0 <= j < i ==> (#[trigger] self.tags@[j]).0@ != name@,
            decreases self.tags.len() - i,
        {
            if str_eq(self.tags[i].0.as_str(), name) {
                proof {
                    lemma_entry_in_map(self.tags@, i as int);
                }
                return Some(i);
            }
            i = i + 1;
        }
        proof {
            lemma_map_keys(self.tags@, name@);
            assert(forall|j: int| 0 <= j < i ==> entry_names(self.tags@)[j] == (#[trigger] self.tags@[j]).0@);
            if entry_names(self.tags@).contains(name@) {
                let j = choose|j: int| 0 <= j < entry_names(self.tags@).len() && entry_names(self.tags@)[j] == name@;
                assert(self.tags@[j].0@ == name@);
            }
        }
        None
    }

    /// Labels directory `dir` with tag `tag`, creating the tag if need be;
    /// the tag's directories end up sorted and each once.
    pub fn add_tag_to_dir(&mut self, tag: &str, dir: &str)
        requires
            old(self).wf(),
        ensures
            final(self).wf(),
            final(self)@.version == old(self)@.version,
            final(self)@.last_paths == old(self)@.last_paths,
            final(self)@.tags.contains_key(tag@),
            final(self)@.tags.remove(tag@) == old(self)@.tags.remove(tag@),
            strictly_sorted(final(self)@.tags[tag@]),
            final(self)@.tags[tag@].to_set() == (if old(self)@.tags.contains_key(tag@) {
                old(self)@.tags[tag@]
            } else {
                seq![]
            }).to_set().insert(dir@),
    {
        match self.find_tag(tag) {
            Some(idx) => {
                let mut all = copy_strings(&self.tags[idx].1.paths);
                let ghost before = views(all@);
                all.push(dir.to_string());
                assert(views(all@).to_set() =~= before.to_set().insert(dir@)) by {
                    assert(views(all@) =~= before.push(dir@));
                    assert forall|y: Seq<char>| views(all@).to_set().contains(y) <==> before.to_set().insert(dir@).contains(y) by {
                        if views(all@).to_set().contains(y) {
                            let k = choose|k: int| 0 <= k < views(all@).len() && views(all@)[k] == y;
                            if k < before.len() {
                                assert(before[k] == y);
                            }
                        }
                        if before.to_set().contains(y) {
                            let k = choose|k: int| 0 <= k < before.len() && before[k] == y;
                            assert(views(all@)[k] == y);
                        }
                        if y == dir@ {
                            assert(views(all@)[before.len() as int] == y);
                        }
                    }
                }
                let paths = sorted_unique(&all);
                let entry = (self.tags[idx].0.clone(), Tag { paths });
                proof {
                    lemma_map_update(self.tags@, idx as int, entry);
                }
                self.tags.set(idx, entry);
                assert(self@.tags =~= old(self)@.tags.insert(tag@, views(entry.1.paths@)));
                assert(self@.tags.remove(tag@) =~= old(self)@.tags.remove(tag@));
            },
            None => {
                let mut paths: Vec<String> = Vec::new();
                paths.push(dir.to_string());
                let entry = (tag.to_string(), Tag { paths });
                let ghost before = self.tags@;
                proof {
                    lemma_map_keys(before, tag@);
                }
                self.tags.push(entry);
                proof {
                    assert(self.tags@.drop_last() =~= before);
                    assert(entry_names(self.tags@) =~= entry_names(before).push(tag@));
                    assert(views(entry.1.paths@) =~= seq![dir@]);
                    assert(self@.tags.remove(tag@) =~= old(self)@.tags.remove(tag@));
                    assert(seq![dir@].to_set() =~= Seq::<Seq<char>>::empty().to_set().insert(dir@)) by {
                        assert forall|y: Seq<char>| seq![dir@].to_set().contains(y) <==> y == dir@ by {
                            if y == dir@ {
                                assert(seq![dir@][0] == y);
                            }
                        }
                    }
                }
            },
        }
    }

    /// Removes directory `dir` from tag `tag`, and the tag itself once it
    /// labels no directory; says whether the tag existed.
    pub fn remove_dir_from_tag(&mut self, tag: &str, dir: &str) -> (existed: bool)
        requires
            old(self).wf(),
        ensures
            final(self).wf(),
            existed == old(self)@.tags.contains_key(tag@),
            final(self)@.version == old(self)@.version,
            final(self)@.last_paths == old(self)@.last_paths,
            !existed ==> final(self)@.tags == old(self)@.tags,
            existed && without(old(self)@.tags[tag@], dir@).len() == 0 ==> final(self)@.tags == old(self)@.tags.remove(tag@),
            existed && without(old(self)@.tags[tag@], dir@).len() > 0 ==> final(self)@.tags == old(self)@.tags.insert(
                tag@,
                without(old(self)@.tags[tag@], dir@),
            ),
    {
        match self.find_tag(tag) {
            None => false,
            Some(idx) => {
                let kept = paths_without(&self.tags[idx].1.paths, dir);
                if kept.len() == 0 {
                    proof {
                        lemma_map_remove(self.tags@, idx as int);
                        let names = entry_names(self.tags@);
                        assert forall|a: int, b: int| 0 <= a < b < names.remove(idx as int).len() implies names.remove(idx as int)[a] != names.remove(idx as int)[b] by {
                            let a1 = if a < idx { a } else { a + 1 };
                            let b1 = if b < idx { b } else { b + 1 };
                            assert(names.remove(idx as int)[a] == names[a1]);
                            assert(names.remove(idx as int)[b] == names[b1]);
                        }
                    }
                    self.tags.remove(idx);
                } else {
                    let entry = (self.tags[idx].0.clone(), Tag { paths: kept });
                    proof {
                        lemma_map_update(self.tags@, idx as int, entry);
                    }
                    self.tags.set(idx, entry);
                }
                true
            },
        }
    }

    /// Removes tag `name` entirely, leaving its directories alone.
    pub fn delete_tag(&mut self, name: &str)
        requires
            old(self).wf(),
        ensures
            final(self).wf(),
            final(self)@.version == old(self)@.version,
            final(self)@.last_paths == old(self)@.last_paths,
            final(self)@.tags == old(self)@.tags.remove(name@),
    {
        match self.find_tag(name) {
            None => {
                assert(self@.tags =~= old(self)@.tags.remove(name@));
            },
            Some(idx) => {
                proof {
                    lemma_map_remove(self.tags@, idx as int);
                    let names = entry_names(self.tags@);
                    assert forall|a: int, b: int| 0 <= a < b < names.remove(idx as int).len() implies names.remove(idx as int)[a] != names.remove(idx as int)[b] by {
                        let a1 = if a < idx { a } else { a + 1 };
                        let b1 = if b < idx { b } else { b + 1 };
                        assert(names.remove(idx as int)[a] == names[a1]);
                        assert(names.remove(idx as int)[b] == names[b1]);
                    }
                }
                self.tags.remove(idx);
            },
        }
    }

    /// Keeps the paths of this run for the next one, unless there are none;
    /// says whether the configuration changed.
    pub fn store_previous_paths(&mut self, paths: &Vec<String>) -> (changed: bool)
        ensures
            changed == (paths@.len() > 0),
            final(self)@.version == old(self)@.version,
            final(self)@.tags == old(self)@.tags,
            final(self).tags@ == old(self).tags@,
            changed ==> final(self)@.last_paths == Some(views(paths@)),
            !changed ==> final(self)@.last_paths == old(self)@.last_paths,
    {
        if paths.len() > 0 {
            self.last_paths = Some(copy_strings(paths));
            true
        } else {
            false
        }
    }
}

/// The tag table once directory `dir` is removed from every tag, and tags
/// left without directories are dropped.
pub open spec fn untag_everywhere(tags: Map<Seq<char>, Seq<Seq<char>>>, dir: Seq<char>) -> Map<Seq<char>, Seq<Seq<char>>> {
    Map::new(|k: Seq<char>| tags.contains_key(k) && without(tags[k], dir).len() > 0, |k: Seq<char>| without(tags[k], dir))
}

/// `after` holds the tags of `before`, each directory with a leading `~`
/// expanded to `home`.
pub open spec fn paths_expanded(
    before: Map<Seq<char>, Seq<Seq<char>>>,
    after: Map<Seq<char>, Seq<Seq<char>>>,
    home: Option<Seq<char>>,
) -> bool {
    &&& after.dom() == before.dom()
    &&& forall|k: Seq<char>| #[trigger] after.contains_key(k) ==> after[k].len() == before[k].len()
    &&& forall|k: Seq<char>, j: int|
        after.contains_key(k) && 0 <= j < before[k].len() && !tilde_backslash(before[k][j])
            ==> #[trigger] after[k][j] == tilde_expanded(before[k][j], home)
}

impl ConfigFile {
    /// Removes directory `dir` from every tag, dropping the tags that are
    /// left without directories.
    pub fn remove_dir_everywhere(&mut self, dir: &str)
        requires
            old(self).wf(),
        ensures
            final(self).wf(),
            final(self)@.version == old(self)@.version,
            final(self)@.last_paths == old(self)@.last_paths,
            final(self)@.tags == untag_everywhere(old(self)@.tags, dir@),
    {
        let ghost entries = self.tags@;
        let ghost table = self@.tags;
        let mut out: Vec<(String, Tag)> = Vec::new();
        let mut i: usize = 0;
        while i < self.tags.len()
            invariant
                self.wf(),
                entries == self.tags@,
                table == tag_map(entries),
                i <= entries.len(),
                entry_names(out@).no_duplicates(),
                forall|k: Seq<char>| #[trigger] entry_names(out@).contains(k) ==> entry_names(entries.subrange(0, i as int)).contains(k),
                forall|k: Seq<char>| #[trigger] tag_map(out@).contains_key(k) <==> (entry_names(entries.subrange(0, i as int)).contains(k)
                    && without(table[k], dir@).len() > 0),
                forall|k: Seq<char>| #[trigger] tag_map(out@).contains_key(k) ==> tag_map(out@)[k] == without(table[k], dir@),
            decreases self.tags.len() - i,
        {
            let kept = paths_without(&self.tags[i].1.paths, dir);
            let ghost name = entries[i as int].0@;
            let ghost before = out@;
            proof {
                lemma_entry_in_map(entries, i as int);
                assert(entry_names(entries.subrange(0, i + 1)) =~= entry_names(entries.subrange(0, i as int)).push(name));
                assert(entry_names(entries)[i as int] == name);
                if entry_names(entries.subrange(0, i as int)).contains(name) {
                    let j = choose|j: int| 0 <= j < i && entry_names(entries.subrange(0, i as int))[j] == name;
                    assert(entry_names(entries)[j] == name);
                }
                lemma_map_keys(before, name);
                assert(!entry_names(entries.subrange(0, i as int)).contains(name));
                assert(!tag_map(before).contains_key(name));
                assert(table[name] == views(entries[i as int].1.paths@));
            }
            if kept.len() > 0 {
                out.push((self.tags[i].0.clone(), Tag { paths: kept }));
                proof {
                    assert(out@.drop_last() =~= before);
                    assert(entry_names(out@) =~= entry_names(before).push(name));
                    assert(tag_map(out@) == tag_map(before).insert(name, without(table[name], dir@)));
                }
            }
            proof {
                assert forall|k: Seq<char>| #[trigger] entry_names(out@).contains(k) implies entry_names(entries.subrange(0, i + 1)).contains(k) by {
                    if k != name {
                        if kept@.len() > 0 {
                            let j = choose|j: int| 0 <= j < entry_names(out@).len() && entry_names(out@)[j] == k;
                            assert(entry_names(before)[j] == k);
                            assert(entry_names(before).contains(k));
                        }
                        let j = choose|j: int| 0 <= j < i && #[trigger] entry_names(entries.subrange(0, i as int))[j] == k;
                        assert(entry_names(entries.subrange(0, i + 1))[j] == k);
                    } else {
                        assert(entry_names(entries.subrange(0, i + 1))[i as int] == k);
                    }
                }
                assert forall|k: Seq<char>| #[trigger] tag_map(out@).contains_key(k) <==> (entry_names(entries.subrange(0, i + 1)).contains(k)
                    && without(table[k], dir@).len() > 0) by {
                    assert(entry_names(entries.subrange(0, i + 1))[i as int] == name);
                    if k != name {
                        assert(tag_map(out@).contains_key(k) == tag_map(before).contains_key(k));
                    }
                    if entry_names(entries.subrange(0, i + 1)).contains(k) && k != name {
                        let j = choose|j: int| 0 <= j < i + 1 && #[trigger] entry_names(entries.subrange(0, i + 1))[j] == k;
                        assert(entry_names(entries.subrange(0, i as int))[j] == k);
                    }
                    if entry_names(entries.subrange(0, i as int)).contains(k) {
                        let j = choose|j: int| 0 <= j < i && #[trigger] entry_names(entries.subrange(0, i as int))[j] == k;
                        assert(entry_names(entries.subrange(0, i + 1))[j] == k);
                    }
                }
            }
            i = i + 1;
        }
        proof {
            assert(entries.subrange(0, i as int) =~= entries);
            assert(tag_map(out@) =~= untag_everywhere(table, dir@)) by {
                assert forall|k: Seq<char>| tag_map(out@).contains_key(k) <==> untag_everywhere(table, dir@).contains_key(k) by {
                    lemma_map_keys(entries, k);
                }
            }
        }
        self.tags = out;
    }

    /// Expands a leading `~` in every stored tag directory to `home`.
    pub fn expand_config_paths_with_home(self, home: &Option<String>) -> (r: ConfigFile)
        requires
            self.wf(),
        ensures
            r.wf(),
            r@.version == self@.version,
            r@.last_paths == self@.last_paths,
            paths_expanded(self@.tags, r@.tags, opt_view(*home)),
    {
        let ghost entries = self.tags@;
        let ghost table = self@.tags;
        let mut out: Vec<(String, Tag)> = Vec::new();
        let mut i: usize = 0;
        while i < self.tags.len()
            invariant
                self.wf(),
                entries == self.tags@,
                table == tag_map(entries),
                i <= entries.len(),
                out@.len() == i,
                forall|j: int| 0 <= j < i ==> (#[trigger] out@[j]).0@ == entries[j].0@,
                forall|j: int| 0 <= j < i ==> views((#[trigger] out@[j]).1.paths@).len() == views(entries[j].1.paths@).len(),
                forall|j: int, m: int| 0 <= j < i && 0 <= m < entries[j].1.paths@.len() && !tilde_backslash(entries[j].1.paths@[m]@)
                    ==> (#[trigger] out@[j].1.paths@[m])@ == tilde_expanded(entries[j].1.paths@[m]@, opt_view(*home)),
            decreases self.tags.len() - i,
        {
            let src = &self.tags[i].1.paths;
            let mut paths: Vec<String> = Vec::new();
            let mut m: usize = 0;
            while m < src.len()
                invariant
                    m <= src@.len(),
                    paths@.len() == m,
                    forall|a: int| 0 <= a < m && !tilde_backslash(src@[a]@) ==> (#[trigger] paths@[a])@ == tilde_expanded(src@[a]@, opt_view(*home)),
                decreases src.len() - m,
            {
                paths.push(expand_path_with_home(src[m].as_str(), home));
                m = m + 1;
            }
            out.push((self.tags[i].0.clone(), Tag { paths }));
            i = i + 1;
        }
        proof {
            assert(entry_names(out@) =~= entry_names(entries));
            assert forall|k: Seq<char>| tag_map(out@).contains_key(k) <==> table.contains_key(k) by {
                lemma_map_keys(out@, k);
                lemma_map_keys(entries, k);
            }
            assert(tag_map(out@).dom() =~= table.dom());
            assert forall|k: Seq<char>| #[trigger] tag_map(out@).contains_key(k) implies {
                &&& tag_map(out@)[k].len() == table[k].len()
                &&& forall|j: int| 0 <= j < table[k].len() && !tilde_backslash(table[k][j])
                    ==> #[trigger] tag_map(out@)[k][j] == tilde_expanded(table[k][j], opt_view(*home))
            } by {
                lemma_map_keys(out@, k);
                let j = choose|j: int| 0 <= j < entry_names(out@).len() && entry_names(out@)[j] == k;
                lemma_entry_in_map(out@, j);
                lemma_entry_in_map(entries, j);
            }
        }
        ConfigFile { version: self.version, tags: out, last_paths: self.last_paths }
    }

    /// Expands a leading `~` in every stored tag directory to the user's
    /// home directory.
    pub fn expand_config_paths(self) -> (r: ConfigFile)
        requires
            self.wf(),
        ensures
            r.wf(),
            r@.version == self@.version,
            r@.last_paths == self@.last_paths,
            exists|home: Option<Seq<char>>| #[trigger] paths_expanded(self@.tags, r@.tags, home),
    {
        let home = home_dir();
        let ghost before = self@;
        let r = self.expand_config_paths_with_home(&home);
        assert(paths_expanded(before.tags, r@.tags, opt_view(home)));
        r
    }
}

/// The directories of `paths` other than `dir`.
fn paths_without(paths: &Vec<String>, dir: &str) -> (r: Vec<String>)
    ensures
        views(r@) == without(views(paths@), dir@),
{
    let mut r: Vec<String> = Vec::new();
    let mut i: usize = 0;
    while i < paths.len()
        invariant
            i <= paths@.len(),
            views(r@) == without(views(paths@).subrange(0, i as int), dir@),
        decreases paths.len() - i,
    {
        let ghost part = views(paths@).subrange(0, i + 1);
        assert(part.drop_last() =~= views(paths@).subrange(0, i as int));
        assert(part.last() == paths@[i as int]@);
        let ghost before = r@;
        if !str_eq(paths[i].as_str(), dir) {
            r.push(paths[i].clone());
            assert(views(r@) =~= views(before).push(paths@[i as int]@));
        }
        i = i + 1;
    }
    assert(views(paths@).subrange(0, i as int) =~= views(paths@));
    r
}

} // verus!
