//! Launchable entries and the name-keyed index that holds them.

use vstd::prelude::*;
use crate::icons::{CandidateView, IconIndex};

verus! {

/// One launchable application.
#[derive(Clone, Debug, PartialEq, Eq)]
pub struct Entry {
    /// Display name; the key of the index.
    pub name: String,
    /// Command run when the entry is chosen.
    pub command: String,
    /// Icon name, or the icon's resolved path once icons are resolved.
    pub icon: Option<String>,
    /// Optional description.
    pub description: Option<String>,
    /// Keywords for filtering.
    pub keywords: Option<Vec<String>>,
    /// Whether the command runs inside a terminal window.
    pub terminal: bool,
}

/// The mathematical value of an [`Entry`].
pub ghost struct EntryView {
    pub name: Seq<char>,
    pub command: Seq<char>,
    pub icon: Option<Seq<char>>,
    pub description: Option<Seq<char>>,
    pub keywords: Option<Seq<Seq<char>>>,
    pub terminal: bool,
}

/// The characters of an optional string.
pub open spec fn opt_view(o: Option<String>) -> Option<Seq<char>> {
    match o {
        Some(s) => Some(s@),
        None => None,
    }
}

/// The characters of each string of a list.
pub open spec fn strings_view(v: Seq<String>) -> Seq<Seq<char>> {
    v.map_values(|s: String| s@)
}

impl View for Entry {
    type V = EntryView;

    open spec fn view(&self) -> EntryView {
        EntryView {
            name: self.name@,
            command: self.command@,
            icon: opt_view(self.icon),
            description: opt_view(self.description),
            keywords: match self.keywords {
                Some(k) => Some(strings_view(k@)),
                None => None,
            },
            terminal: self.terminal,
        }
    }
}

/// The entry with every text field empty and every option absent.
pub open spec fn empty_entry() -> EntryView {
    EntryView {
        name: Seq::empty(),
        command: Seq::empty(),
        icon: None,
        description: None,
        keywords: None,
        terminal: false,
    }
}

impl Default for Entry {
    fn default() -> (r: Entry)
        ensures
            r@ == empty_entry(),
    {
        Entry {
            name: String::new(),
            command: String::new(),
            icon: None,
            description: None,
            keywords: None,
            terminal: false,
        }
    }
}

/// A copy of an optional string.
pub fn copy_opt(o: &Option<String>) -> (r: Option<String>)
    ensures
        opt_view(r) == opt_view(*o),
{
    match o {
        Some(s) => Some(s.clone()),
        None => None,
    }
}

/// A copy of a list of strings.
pub fn copy_strings(v: &Vec<String>) -> (r: Vec<String>)
    ensures
        strings_view(r@) == strings_view(v@),
{
    let mut r: Vec<String> = Vec::new();
    let mut i: usize = 0;
    while i < v.len()
        invariant
            i <= v.len(),
            strings_view(r@) == strings_view(v@.take(i as int)),
        decreases v.len() - i,
    {
        let ghost before = r@;
        r.push(v[i].clone());
        assert(v@.take(i + 1) == v@.take(i as int).push(v@[i as int]));
        assert(strings_view(r@) =~= strings_view(before).push(v@[i as int]@));
        assert(strings_view(v@.take(i + 1)) =~= strings_view(v@.take(i as int)).push(v@[i as int]@));
        i = i + 1;
    }
    assert(v@.take(v.len() as int) == v@);
    r
}

impl Entry {
    /// A field-by-field copy.
    pub fn duplicate(&self) -> (r: Entry)
        ensures
            r@ == self@,
    {
        Entry {
            name: self.name.clone(),
            command: self.command.clone(),
            icon: copy_opt(&self.icon),
            description: copy_opt(&self.description),
            keywords: match &self.keywords {
                Some(k) => Some(copy_strings(k)),
                None => None,
            },
            terminal: self.terminal,
        }
    }
}

/// The views of a list of entries.
pub open spec fn entries_view(v: Seq<Entry>) -> Seq<EntryView> {
    v.map_values(|e: Entry| e@)
}

/// A copy of a list of entries.
pub fn copy_entries(v: &Vec<Entry>) -> (r: Vec<Entry>)
    ensures
        entries_view(r@) == entries_view(v@),
{
    let mut r: Vec<Entry> = Vec::new();
    let mut i: usize = 0;
    while i < v.len()
        invariant
            i <= v.len(),
            entries_view(r@) == entries_view(v@.take(i as int)),
        decreases v.len() - i,
    {
        let ghost before = r@;
        r.push(v[i].duplicate());
        assert(v@.take(i + 1) == v@.take(i as int).push(v@[i as int]));
        assert(entries_view(r@) =~= entries_view(before).push(v@[i as int]@));
        assert(entries_view(v@.take(i + 1)) =~= entries_view(v@.take(i as int)).push(v@[i as int]@));
        i = i + 1;
    }
    assert(v@.take(v.len() as int) == v@);
    r
}

/// No two entries of `s` share a name.
pub open spec fn names_unique(s: Seq<EntryView>) -> bool {
    forall|i: int, j: int| 0 <= i < s.len() && 0 <= j < s.len() && i != j ==> s[i].name != s[j].name
}

/// The mapping from name to entry that a list with unique names stands for.
pub open spec fn as_map(s: Seq<EntryView>) -> Map<Seq<char>, EntryView> {
    Map::new(
        |k: Seq<char>| exists|i: int| 0 <= i < s.len() && s[i].name == k,
        |k: Seq<char>| s[choose|i: int| 0 <= i < s.len() && s[i].name == k],
    )
}

proof fn lemma_as_map_at(s: Seq<EntryView>, i: int)
    requires
        names_unique(s),
        0 <= i < s.len(),
    ensures
        as_map(s).contains_key(s[i].name),
        as_map(s)[s[i].name] == s[i],
{
    let k = s[i].name;
    assert(as_map(s).dom().contains(k));
    let j = choose|j: int| 0 <= j < s.len() && s[j].name == k;
    assert(j == i);
}

/// Position of the entry named `name` in `v`, if any.
fn position_of(v: &Vec<Entry>, name: &String) -> (r: Option<usize>)
    ensures
        match r {
            Some(i) => i < v.len() && v@[i as int].name@ == name@,
            None => forall|j: int| 0 <= j < v.len() ==> v@[j].name@ != name@,
        },
{
    let mut i: usize = 0;
    while i < v.len()
        invariant
            i <= v.len(),
            forall|j: int| 0 <= j < i ==> v@[j].name@ != name@,
        decreases v.len() - i,
    {
        if v[i].name == *name {
            return Some(i);
        }
        i = i + 1;
    }
    None
}

/// Entries keyed by display name: inserting an entry under a name that is
/// already present replaces the earlier entry in its place.
pub struct EntryIndex {
    entries: Vec<Entry>,
}

impl View for EntryIndex {
    type V = Map<Seq<char>, EntryView>;

    closed spec fn view(&self) -> Map<Seq<char>, EntryView> {
        as_map(entries_view(self.entries@))
    }
}

impl EntryIndex {
    #[verifier::type_invariant]
    spec fn inv(&self) -> bool {
        names_unique(entries_view(self.entries@))
    }

    /// The entries held, each under its own name, in the order in which
    /// their names first arrived.
    pub fn entries(&self) -> (r: Vec<Entry>)
        ensures
            names_unique(entries_view(r@)),
            as_map(entries_view(r@)) == self@,
    {
        proof {
            use_type_invariant(self);
        }
        copy_entries(&self.entries)
    }

    /// An empty index.
    pub fn new() -> (r: EntryIndex)
        ensures
            r@ == Map::<Seq<char>, EntryView>::empty(),
    {
        let r = EntryIndex { entries: Vec::new() };
        assert(r@ =~= Map::<Seq<char>, EntryView>::empty());
        r
    }

    /// Adds `e` under its name, replacing any entry of that name.
    pub fn insert(&mut self, e: Entry)
        ensures
            final(self)@ == old(self)@.insert(e@.name, e@),
    {
        proof {
            use_type_invariant(&*self);
        }
        let mut entries: Vec<Entry> = Vec::new();
        std::mem::swap(&mut entries, &mut self.entries);
        let ghost s = entries_view(entries@);
        let pos = position_of(&entries, &e.name);
        let ghost s2;
        if let Some(i) = pos {
            assert(s[i as int].name == e@.name);
            entries.set(i, e);
            proof {
                s2 = entries_view(entries@);
                assert(s2 =~= s.update(i as int, e@));
                assert forall|a: int, b: int| 0 <= a < s2.len() && 0 <= b < s2.len() && a != b implies s2[a].name != s2[b].name by {
                    if a != i && b != i {
                        assert(s2[a] == s[a] && s2[b] == s[b]);
                    } else if a == i {
                        assert(s2[b] == s[b]);
                    } else {
                        assert(s2[a] == s[a]);
                    }
                }
                assert forall|k: Seq<char>| #[trigger] as_map(s2).contains_key(k) <==> as_map(s).insert(e@.name, e@).contains_key(k) by {
                    if as_map(s).contains_key(k) && k != e@.name {
                        let j = choose|j: int| 0 <= j < s.len() && s[j].name == k;
                        assert(s2[j].name == k);
                    }
                    if as_map(s2).contains_key(k) && k != e@.name {
                        let j = choose|j: int| 0 <= j < s2.len() && s2[j].name == k;
                        assert(s[j].name == k);
                    }
                    if k == e@.name {
                        assert(s2[i as int].name == k);
                    }
                }
                assert forall|k: Seq<char>| #[trigger] as_map(s2).contains_key(k) implies as_map(s2)[k] == as_map(s).insert(e@.name, e@)[k] by {
                    let j = choose|j: int| 0 <= j < s2.len() && s2[j].name == k;
                    lemma_as_map_at(s2, j);
                    if j != i {
                        lemma_as_map_at(s, j);
                    }
                }
                assert(as_map(s2) =~= as_map(s).insert(e@.name, e@));
            }
        } else {
            entries.push(e);
            proof {
                s2 = entries_view(entries@);
                assert(s2 =~= s.push(e@));
                assert(names_unique(s2));
                assert forall|k: Seq<char>| #[trigger] as_map(s2).contains_key(k) <==> as_map(s).insert(e@.name, e@).contains_key(k) by {
                    if as_map(s).contains_key(k) {
                        let j = choose|j: int| 0 <= j < s.len() && s[j].name == k;
                        assert(s2[j].name == k);
                    }
                    if as_map(s2).contains_key(k) && k != e@.name {
                        let j = choose|j: int| 0 <= j < s2.len() && s2[j].name == k;
                        assert(s[j].name == k);
                    }
                    if k == e@.name {
                        assert(s2[s.len() as int].name == k);
                    }
                }
                assert forall|k: Seq<char>| #[trigger] as_map(s2).contains_key(k) implies as_map(s2)[k] == as_map(s).insert(e@.name, e@)[k] by {
                    let j = choose|j: int| 0 <= j < s2.len() && s2[j].name == k;
                    lemma_as_map_at(s2, j);
                    if j != s.len() {
                        lemma_as_map_at(s, j);
                    }
                }
                assert(as_map(s2) =~= as_map(s).insert(e@.name, e@));
            }
        }
        self.entries = entries;
    }
}

/// The path that an icon name resolves to, or nothing when no icon file
/// matched it.
pub open spec fn resolved_icon(icons: Map<Seq<char>, CandidateView>, icon: Option<Seq<char>>) -> Option<Seq<char>> {
    match icon {
        Some(n) => if icons.contains_key(n) {
            Some(icons[n].path)
        } else {
            None
        },
        None => None,
    }
}

/// `e` with its icon name replaced by the resolved path.
pub open spec fn with_resolved_icon(e: EntryView, icons: Map<Seq<char>, CandidateView>) -> EntryView {
    EntryView { icon: resolved_icon(icons, e.icon), ..e }
}

proof fn lemma_as_map_resolved(s: Seq<EntryView>, icons: Map<Seq<char>, CandidateView>)
    requires
        names_unique(s),
    ensures
        names_unique(s.map_values(|e: EntryView| with_resolved_icon(e, icons))),
        as_map(s.map_values(|e: EntryView| with_resolved_icon(e, icons))) == as_map(s).map_values(
            |e: EntryView| with_resolved_icon(e, icons),
        ),
{
    let t = s.map_values(|e: EntryView| with_resolved_icon(e, icons));
    assert forall|i: int| 0 <= i < t.len() implies #[trigger] t[i].name == s[i].name by {}
    let m = as_map(s).map_values(|e: EntryView| with_resolved_icon(e, icons));
    assert forall|k: Seq<char>| #[trigger] as_map(t).contains_key(k) <==> m.contains_key(k) by {
        if as_map(s).contains_key(k) {
            let j = choose|j: int| 0 <= j < s.len() && s[j].name == k;
            assert(t[j].name == k);
        }
        if as_map(t).contains_key(k) {
            let j = choose|j: int| 0 <= j < t.len() && t[j].name == k;
            assert(s[j].name == k);
        }
    }
    assert forall|k: Seq<char>| #[trigger] as_map(t).contains_key(k) implies as_map(t)[k] == m[k] by {
        let j = choose|j: int| 0 <= j < t.len() && t[j].name == k;
        lemma_as_map_at(t, j);
        lemma_as_map_at(s, j);
    }
    assert(as_map(t) =~= m);
}

/// The launcher's entries: those of the index, in its order, each with its
/// icon name replaced by the path of the icon file selected for it (no
/// icon when none matched).
pub fn from_freedesktop(index: &EntryIndex, icons: &IconIndex) -> (r: Vec<Entry>)
    ensures
        names_unique(entries_view(r@)),
        as_map(entries_view(r@)) == index@.map_values(|e: EntryView| with_resolved_icon(e, icons@)),
{
    proof {
        use_type_invariant(index);
    }
    let ghost s = entries_view(index.entries@);
    let ghost f = |e: EntryView| with_resolved_icon(e, icons@);
    let mut r: Vec<Entry> = Vec::new();
    let mut i: usize = 0;
    while i < index.entries.len()
        invariant
            i <= index.entries.len(),
            s == entries_view(index.entries@),
            f == (|e: EntryView| with_resolved_icon(e, icons@)),
            entries_view(r@) == s.take(i as int).map_values(f),
        decreases index.entries.len() - i,
    {
        let mut e = index.entries[i].duplicate();
        let icon = match &e.icon {
            Some(name) => match icons.get(name) {
                Some(c) => Some(c.path.clone()),
                None => None,
            },
            None => None,
        };
        e.icon = icon;
        let ghost before = entries_view(r@);
        r.push(e);
        proof {
            assert(entries_view(r@) =~= before.push(f(s[i as int])));
            assert(s.take(i + 1).map_values(f) =~= s.take(i as int).map_values(f).push(f(s[i as int])));
        }
        i = i + 1;
    }
    proof {
        assert(s.take(s.len() as int) == s);
        lemma_as_map_resolved(s, icons@);
    }
    r
}

} // verus!
