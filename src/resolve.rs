//! Tag resolution: from tag selectors to the sorted, de-duplicated list of
//! directories in which the command will run.
use vstd::prelude::*;
use crate::config::{entry_names, lemma_entry_in_map, lemma_map_keys, ConfigFile};
use crate::sorted::{insert_sorted, lemma_sorted_unique, strictly_sorted};
use crate::text::views;

verus! {

/// The tag name of a selector: the selector without its prefix character.
pub open spec fn tag_name_of(t: Seq<char>) -> Seq<char> {
    if t.len() == 0 {
        t
    } else {
        t.drop_first()
    }
}

/// The literal paths as character sequences.
pub open spec fn literal_views(v: Seq<Option<String>>) -> Seq<Option<Seq<char>>> {
    v.map_values(|o: Option<String>| match o {
        Some(s) => Some(s@),
        None => None,
    })
}

/// Directory `p` comes from selector `t`: `t` names a tag that labels `p`,
/// or names no tag and stands for the existing directory `literal`. An empty
/// name is found nowhere.
pub open spec fn contributes(
    table: Map<Seq<char>, Seq<Seq<char>>>,
    t: Seq<char>,
    literal: Option<Seq<char>>,
    p: Seq<char>,
) -> bool {
    let name = tag_name_of(t);
    name.len() > 0 && if table.contains_key(name) {
        table[name].contains(p)
    } else {
        literal == Some(p)
    }
}

/// Selector `t` leads nowhere: its name is empty, or it names no tag and no
/// existing directory.
pub open spec fn unknown(table: Map<Seq<char>, Seq<Seq<char>>>, t: Seq<char>, literal: Option<Seq<char>>) -> bool {
    tag_name_of(t).len() == 0 || (!table.contains_key(tag_name_of(t)) && literal is None)
}

/// Every directory that some tag labels.
pub open spec fn all_tagged(table: Map<Seq<char>, Seq<Seq<char>>>) -> Set<Seq<char>> {
    Set::new(|p: Seq<char>| exists|k: Seq<char>| table.contains_key(k) && #[trigger] table[k].contains(p))
}

/// The directories that the selectors reach; with no selector, every
/// tagged directory. `literals[i]` is the existing directory that selector
/// `i` names, if it names one.
pub open spec fn resolved(
    table: Map<Seq<char>, Seq<Seq<char>>>,
    selectors: Seq<Seq<char>>,
    literals: Seq<Option<Seq<char>>>,
) -> Set<Seq<char>> {
    if selectors.len() == 0 {
        all_tagged(table)
    } else {
        Set::new(|p: Seq<char>| exists|i: int| 0 <= i < selectors.len() && contributes(table, #[trigger] selectors[i], literals[i], p))
    }
}

/// The selectors that lead nowhere, in their order.
pub open spec fn missing(
    table: Map<Seq<char>, Seq<Seq<char>>>,
    selectors: Seq<Seq<char>>,
    literals: Seq<Option<Seq<char>>>,
) -> Seq<Seq<char>>
    decreases selectors.len(),
{
    if selectors.len() == 0 || literals.len() == 0 {
        seq![]
    } else {
        let rest = missing(table, selectors.drop_last(), literals.drop_last());
        if unknown(table, selectors.last(), literals.last()) {
            rest.push(selectors.last())
        } else {
            rest
        }
    }
}

/// The paths whose flag is not `Some(false)`, in their order.
pub open spec fn kept(paths: Seq<String>, modified: Seq<Option<bool>>) -> Seq<String>
    decreases paths.len(),
{
    if paths.len() == 0 || modified.len() == 0 {
        seq![]
    } else {
        let rest = kept(paths.drop_last(), modified.drop_last());
        if modified.last() != Some(false) {
            rest.push(paths.last())
        } else {
            rest
        }
    }
}

/// The tag name of a selector.
pub fn tag_name(t: &str) -> (r: String)
    ensures
        r@ == tag_name_of(t@),
{
    let n = t.unicode_len();
    if n == 0 {
        String::new()
    } else {
        let r = t.substring_char(1, n).to_string();
        assert(r@ =~= t@.drop_first());
        r
    }
}

fn add_all(r: &mut Vec<String>, paths: &Vec<String>)
    requires
        strictly_sorted(views(old(r)@)),
    ensures
        strictly_sorted(views(final(r)@)),
        views(final(r)@).to_set() == views(old(r)@).to_set() + views(paths@).to_set(),
{
    let ghost start = views(r@).to_set();
    let mut i: usize = 0;
    while i < paths.len()
        invariant
            i <= paths@.len(),
            strictly_sorted(views(r@)),
            views(r@).to_set() == start + views(paths@).subrange(0, i as int).to_set(),
        decreases paths.len() - i,
    {
        insert_sorted(r, paths[i].clone());
        proof {
            let a = views(paths@).subrange(0, i as int);
            let b = views(paths@).subrange(0, i + 1);
            assert(b =~= a.push(paths@[i as int]@));
            assert(b.to_set() =~= a.to_set().insert(paths@[i as int]@)) by {
                assert forall|y: Seq<char>| b.to_set().contains(y) <==> a.to_set().insert(paths@[i as int]@).contains(y) by {
                    if b.to_set().contains(y) {
                        let k = choose|k: int| 0 <= k < b.len() && b[k] == y;
                        if k < i {
                            assert(a[k] == y);
                        }
                    }
                    if a.to_set().contains(y) {
                        let k = choose|k: int| 0 <= k < a.len() && a[k] == y;
                        assert(b[k] == y);
                    }
                    if y == paths@[i as int]@ {
                        assert(b[i as int] == y);
                    }
                }
            }
        }
        i = i + 1;
    }
    assert(views(paths@).subrange(0, i as int) =~= views(paths@));
}

/// The directories that `tags` select, sorted and each once.
///
/// A selector's name is looked up in the tag table; a name that is no tag
/// stands for the directory `literals[i]`, which the caller found to exist
/// (`None` where it does not). With no selector, every tagged directory is
/// selected.
pub fn get_all_paths(tags: &Vec<String>, config: &ConfigFile, literals: &Vec<Option<String>>) -> (r: Vec<String>)
    requires
        config.wf(),
        literals@.len() == tags@.len(),
    ensures
        strictly_sorted(views(r@)),
        views(r@).to_set() == resolved(config@.tags, views(tags@), literal_views(literals@)),
{
    let ghost table = config@.tags;
    let ghost sel = views(tags@);
    let ghost lits = literal_views(literals@);
    let mut r: Vec<String> = Vec::new();
    if tags.len() == 0 {
        let ghost entries = config.tags@;
        let mut i: usize = 0;
        assert(views(r@).to_set() =~= Set::<Seq<char>>::empty());
        while i < config.tags.len()
            invariant
                config.wf(),
                entries == config.tags@,
                i <= entries.len(),
                strictly_sorted(views(r@)),
                views(r@).to_set() == Set::new(
                    |p: Seq<char>| exists|j: int| 0 <= j < i && #[trigger] views(entries[j].1.paths@).contains(p),
                ),
            decreases config.tags.len() - i,
        {
            let ghost before = views(r@).to_set();
            add_all(&mut r, &config.tags[i].1.paths);
            proof {
                assert(views(r@).to_set() =~= Set::new(
                    |p: Seq<char>| exists|j: int| 0 <= j < i + 1 && #[trigger] views(entries[j].1.paths@).contains(p),
                )) by {
                    assert forall|p: Seq<char>| views(r@).to_set().contains(p) <==> exists|j: int| 0 <= j < i + 1 && #[trigger] views(entries[j].1.paths@).contains(p) by {
                        if exists|j: int| 0 <= j < i + 1 && #[trigger] views(entries[j].1.paths@).contains(p) {
                            let j = choose|j: int| 0 <= j < i + 1 && #[trigger] views(entries[j].1.paths@).contains(p);
                            if j < i {
                                assert(before.contains(p));
                            }
                        }
                    }
                }
            }
            i = i + 1;
        }
        proof {
            assert(views(r@).to_set() =~= all_tagged(table)) by {
                assert forall|p: Seq<char>| views(r@).to_set().contains(p) <==> all_tagged(table).contains(p) by {
                    if views(r@).to_set().contains(p) {
                        let j = choose|j: int| 0 <= j < i && #[trigger] views(entries[j].1.paths@).contains(p);
                        lemma_entry_in_map(entries, j);
                        assert(table.contains_key(entries[j].0@) && table[entries[j].0@].contains(p));
                    }
                    if all_tagged(table).contains(p) {
                        let k = choose|k: Seq<char>| table.contains_key(k) && #[trigger] table[k].contains(p);
                        lemma_map_keys(entries, k);
                        let j = choose|j: int| 0 <= j < entry_names(entries).len() && entry_names(entries)[j] == k;
                        assert(entries[j].0@ == k);
                        lemma_entry_in_map(entries, j);
                    }
                }
            }
        }
        return r;
    }
    let mut i: usize = 0;
    assert(views(r@).to_set() =~= Set::<Seq<char>>::empty());
    while i < tags.len()
        invariant
            config.wf(),
            table == config@.tags,
            sel == views(tags@),
            lits == literal_views(literals@),
            literals@.len() == tags@.len(),
            i <= tags@.len(),
            strictly_sorted(views(r@)),
            views(r@).to_set() == Set::new(
                |p: Seq<char>| exists|j: int| 0 <= j < i && contributes(table, #[trigger] sel[j], lits[j], p),
            ),
        decreases tags.len() - i,
    {
        let ghost before = views(r@).to_set();
        let ghost t = sel[i as int];
        let name = tag_name(tags[i].as_str());
        let ghost added: Set<Seq<char>>;
        if name.unicode_len() > 0 {
            match config.find_tag(name.as_str()) {
                Some(idx) => {
                    add_all(&mut r, &config.tags[idx].1.paths);
                    proof {
                        added = table[tag_name_of(t)].to_set();
                    }
                },
                None => {
                    match &literals[i] {
                        Some(l) => {
                            insert_sorted(&mut r, l.clone());
                            proof {
                                assert(lits[i as int] == Some(l@));
                                added = set![l@];
                            }
                        },
                        None => {
                            proof {
                                added = Set::empty();
                            }
                        },
                    }
                },
            }
        } else {
            proof {
                added = Set::empty();
            }
        }
        proof {
            assert(views(r@).to_set() =~= before + added);
            assert forall|p: Seq<char>| added.contains(p) <==> contributes(table, t, lits[i as int], p) by {}
            assert(views(r@).to_set() =~= Set::new(
                |p: Seq<char>| exists|j: int| 0 <= j < i + 1 && contributes(table, #[trigger] sel[j], lits[j], p),
            )) by {
                assert forall|p: Seq<char>| views(r@).to_set().contains(p) <==> exists|j: int| 0 <= j < i + 1 && contributes(table, #[trigger] sel[j], lits[j], p) by {
                    if exists|j: int| 0 <= j < i + 1 && contributes(table, #[trigger] sel[j], lits[j], p) {
                        let j = choose|j: int| 0 <= j < i + 1 && contributes(table, #[trigger] sel[j], lits[j], p);
                        if j < i {
                            assert(before.contains(p));
                        }
                    }
                }
            }
        }
        i = i + 1;
    }
    proof {
        assert(views(r@).to_set() =~= resolved(table, sel, lits));
    }
    r
}

/// The selectors that lead nowhere, in their order, to be reported.
pub fn missing_tags(tags: &Vec<String>, config: &ConfigFile, literals: &Vec<Option<String>>) -> (r: Vec<String>)
    requires
        config.wf(),
        literals@.len() == tags@.len(),
    ensures
        views(r@) == missing(config@.tags, views(tags@), literal_views(literals@)),
{
    let ghost table = config@.tags;
    let mut r: Vec<String> = Vec::new();
    let mut i: usize = 0;
    while i < tags.len()
        invariant
            config.wf(),
            table == config@.tags,
            literals@.len() == tags@.len(),
            i <= tags@.len(),
            views(r@) == missing(table, views(tags@).subrange(0, i as int), literal_views(literals@).subrange(0, i as int)),
        decreases tags.len() - i,
    {
        let ghost sel = views(tags@).subrange(0, i + 1);
        let ghost lits = literal_views(literals@).subrange(0, i + 1);
        assert(sel.drop_last() =~= views(tags@).subrange(0, i as int));
        assert(lits.drop_last() =~= literal_views(literals@).subrange(0, i as int));
        assert(sel.last() == tags@[i as int]@);
        assert(lits.last() == literal_views(literals@)[i as int]);
        let name = tag_name(tags[i].as_str());
        let lost = if name.unicode_len() == 0 {
            true
        } else {
            match config.find_tag(name.as_str()) {
                Some(_) => false,
                None => literals[i].is_none(),
            }
        };
        if lost {
            r.push(tags[i].clone());
        }
        proof {
            assert(lost == unknown(table, sel.last(), lits.last()));
            assert(views(r@) =~= missing(table, sel, lits));
        }
        i = i + 1;
    }
    assert(views(tags@).subrange(0, i as int) =~= views(tags@));
    assert(literal_views(literals@).subrange(0, i as int) =~= literal_views(literals@));
    r
}

/// The paths to keep when only modified directories are wanted: every path
/// except those that were found to be unmodified. A path whose state could
/// not be found out (`None`) is kept.
pub fn select_modified(paths: &Vec<String>, modified: &Vec<Option<bool>>) -> (r: Vec<String>)
    requires
        modified@.len() == paths@.len(),
    ensures
        r@ == kept(paths@, modified@),
{
    let mut r: Vec<String> = Vec::new();
    let mut i: usize = 0;
    while i < paths.len()
        invariant
            modified@.len() == paths@.len(),
            i <= paths@.len(),
            r@ == kept(paths@.subrange(0, i as int), modified@.subrange(0, i as int)),
        decreases paths.len() - i,
    {
        assert(paths@.subrange(0, i + 1).drop_last() =~= paths@.subrange(0, i as int));
        assert(modified@.subrange(0, i + 1).drop_last() =~= modified@.subrange(0, i as int));
        if modified[i] != Some(false) {
            r.push(paths[i].clone());
        }
        i = i + 1;
    }
    assert(paths@.subrange(0, i as int) =~= paths@);
    assert(modified@.subrange(0, i as int) =~= modified@);
    r
}

/// Resolution does not depend on the order or repetition of the selectors:
/// two selector lists that hold the same selectors, each with the same
/// literal directory, reach the same directories, so any two resolutions of
/// them (each sorted and duplicate-free, as `get_all_paths` returns them)
/// are the same list. In particular, resolving one selector list twice gives
/// identical lists.
pub proof fn lemma_resolution_canonical(
    table: Map<Seq<char>, Seq<Seq<char>>>,
    sel1: Seq<Seq<char>>,
    lits1: Seq<Option<Seq<char>>>,
    sel2: Seq<Seq<char>>,
    lits2: Seq<Option<Seq<char>>>,
    r1: Seq<Seq<char>>,
    r2: Seq<Seq<char>>,
)
    requires
        lits1.len() == sel1.len(),
        lits2.len() == sel2.len(),
        sel1.zip_with(lits1).to_set() == sel2.zip_with(lits2).to_set(),
        strictly_sorted(r1),
        r1.to_set() == resolved(table, sel1, lits1),
        strictly_sorted(r2),
        r2.to_set() == resolved(table, sel2, lits2),
    ensures
        r1 == r2,
{
    let z1 = sel1.zip_with(lits1);
    let z2 = sel2.zip_with(lits2);
    if sel1.len() == 0 && sel2.len() > 0 {
        assert(z2.to_set().contains(z2[0]));
        assert(z1.to_set().contains(z2[0]));
    } else if sel1.len() > 0 && sel2.len() == 0 {
        assert(z1.to_set().contains(z1[0]));
        assert(z2.to_set().contains(z1[0]));
    } else if sel1.len() > 0 {
        assert forall|p: Seq<char>| resolved(table, sel1, lits1).contains(p) implies resolved(table, sel2, lits2).contains(p) by {
            let i = choose|i: int| 0 <= i < sel1.len() && contributes(table, #[trigger] sel1[i], lits1[i], p);
            assert(z1[i] == (sel1[i], lits1[i]));
            assert(z1.to_set().contains(z1[i]));
            let j = choose|j: int| 0 <= j < z2.len() && z2[j] == z1[i];
            assert(sel2[j] == sel1[i] && lits2[j] == lits1[i]);
        }
        assert forall|p: Seq<char>| resolved(table, sel2, lits2).contains(p) implies resolved(table, sel1, lits1).contains(p) by {
            let i = choose|i: int| 0 <= i < sel2.len() && contributes(table, #[trigger] sel2[i], lits2[i], p);
            assert(z2[i] == (sel2[i], lits2[i]));
            assert(z2.to_set().contains(z2[i]));
            let j = choose|j: int| 0 <= j < z1.len() && z1[j] == z2[i];
            assert(sel1[j] == sel2[i] && lits1[j] == lits2[i]);
        }
        assert(resolved(table, sel1, lits1) =~= resolved(table, sel2, lits2));
    }
    lemma_sorted_unique(r1, r2);
}

} // verus!
