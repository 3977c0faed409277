//! Where descriptors and icons are looked for.

use vstd::prelude::*;
use crate::entry::{opt_view, strings_view};
use crate::text::{string_from, chars_of, find_last, last_index, push_str, range_eq, split, split_bounds, string_of};

verus! {

/// The data directory used when no search path is configured.
pub open spec fn default_data_dir() -> Seq<char> {
    "/usr/share"@
}

/// The base directories that a `:`-separated search path names, or the
/// default directory when there is none.
pub open spec fn data_dirs_of(search_path: Option<Seq<char>>) -> Seq<Seq<char>> {
    match search_path {
        Some(p) => split(p, ':'),
        None => seq![default_data_dir()],
    }
}

/// The base directories to scan.
pub fn data_dirs(search_path: &Option<String>) -> (r: Vec<String>)
    ensures
        strings_view(r@) == data_dirs_of(opt_view(*search_path)),
{
    let mut r: Vec<String> = Vec::new();
    match search_path {
        Some(p) => {
            let v = chars_of(p.as_str());
            let ghost parts = split(v@, ':');
            assert(v@.subrange(0, v.len() as int) == v@);
            let bounds = split_bounds(&v, 0, v.len(), ':');
            let mut k: usize = 0;
            while k < bounds.len()
                invariant
                    k <= bounds.len() == parts.len(),
                    parts == split(v@, ':'),
                    v@ == p@,
                    forall|j: int|
                        0 <= j < bounds.len() ==> (#[trigger] bounds[j]).0 <= bounds[j].1 <= v.len()
                            && v@.subrange(bounds[j].0 as int, bounds[j].1 as int) == parts[j],
                    strings_view(r@) == parts.take(k as int),
                decreases bounds.len() - k,
            {
                let (a, b) = bounds[k];
                let ghost before = r@;
                r.push(string_of(&v, a, b));
                assert(strings_view(r@) =~= strings_view(before).push(parts[k as int]));
                assert(parts.take(k + 1) =~= parts.take(k as int).push(parts[k as int]));
                k = k + 1;
            }
            assert(parts.take(parts.len() as int) == parts);
        },
        None => {
            r.push(string_from("/usr/share"));
            assert(strings_view(r@) =~= seq![default_data_dir()]);
        },
    }
    r
}

/// A file name whose extension is `desktop` (a name that only starts with
/// a dot has no extension).
pub open spec fn is_descriptor_name(name: Seq<char>) -> bool {
    match last_index(name, '.') {
        Some(i) => i > 0 && name.skip(i + 1) == "desktop"@,
        None => false,
    }
}

/// Whether a file with this name is an application descriptor.
pub fn is_descriptor_file(name: &str) -> (r: bool)
    ensures
        r == is_descriptor_name(name@),
{
    let v = chars_of(name);
    assert(v@.subrange(0, v.len() as int) == v@);
    match find_last(&v, 0, v.len(), '.') {
        Some(i) => {
            let ext = chars_of("desktop");
            assert(v@.subrange(i + 1, v.len() as int) == v@.skip(i + 1));
            i > 0 && range_eq(&v, i + 1, v.len(), &ext)
        },
        None => false,
    }
}

/// One directory tree to search for icons.
pub struct IconRoot {
    /// The data directory it lies in.
    pub base: String,
    /// Its path relative to `base`.
    pub subdir: String,
    /// Whether it is the preferred theme.
    pub theme_match: bool,
    /// Whether its files lie directly in it, without resolution
    /// directories.
    pub flat: bool,
}

/// The mathematical value of an [`IconRoot`].
pub ghost struct IconRootView {
    pub base: Seq<char>,
    pub subdir: Seq<char>,
    pub theme_match: bool,
    pub flat: bool,
}

impl View for IconRoot {
    type V = IconRootView;

    open spec fn view(&self) -> IconRootView {
        IconRootView {
            base: self.base@,
            subdir: self.subdir@,
            theme_match: self.theme_match,
            flat: self.flat,
        }
    }
}

/// The trees searched under one data directory: the preferred theme if
/// any, then the `hicolor` theme, then the flat `pixmaps` directory.
pub open spec fn roots_in(dir: Seq<char>, theme: Option<Seq<char>>) -> Seq<IconRootView> {
    let fallback = seq![
        IconRootView { base: dir, subdir: "icons/hicolor"@, theme_match: false, flat: false },
        IconRootView { base: dir, subdir: "pixmaps"@, theme_match: false, flat: true },
    ];
    match theme {
        Some(t) => seq![IconRootView { base: dir, subdir: "icons/"@ + t, theme_match: true, flat: false }]
            + fallback,
        None => fallback,
    }
}

/// The trees searched under each of `dirs`, directory after directory.
pub open spec fn roots_of(dirs: Seq<Seq<char>>, theme: Option<Seq<char>>) -> Seq<IconRootView>
    decreases dirs.len(),
{
    if dirs.len() == 0 {
        Seq::empty()
    } else {
        roots_of(dirs.drop_last(), theme) + roots_in(dirs.last(), theme)
    }
}

/// The views of a list of icon roots.
pub open spec fn roots_view(v: Seq<IconRoot>) -> Seq<IconRootView> {
    v.map_values(|r: IconRoot| r@)
}

fn copy_string(s: &String) -> (r: String)
    ensures
        r@ == s@,
{
    s.clone()
}

/// The icon trees to search, given the data directories and the
/// preferred theme.
pub fn icon_roots(dirs: &Vec<String>, theme: &Option<String>) -> (r: Vec<IconRoot>)
    ensures
        roots_view(r@) == roots_of(strings_view(dirs@), opt_view(*theme)),
{
    let ghost ds = strings_view(dirs@);
    let ghost th = opt_view(*theme);
    let mut r: Vec<IconRoot> = Vec::new();
    let mut k: usize = 0;
    while k < dirs.len()
        invariant
            k <= dirs.len(),
            ds == strings_view(dirs@),
            th == opt_view(*theme),
            roots_view(r@) == roots_of(ds.take(k as int), th),
        decreases dirs.len() - k,
    {
        let ghost before = roots_view(r@);
        let d = &dirs[k];
        if let Some(t) = theme {
            let mut sub = string_from("icons/");
            push_str(&mut sub, t.as_str());
            r.push(IconRoot { base: copy_string(d), subdir: sub, theme_match: true, flat: false });
        }
        r.push(IconRoot { base: copy_string(d), subdir: string_from("icons/hicolor"), theme_match: false, flat: false });
        r.push(IconRoot { base: copy_string(d), subdir: string_from("pixmaps"), theme_match: false, flat: true });
        proof {
            let next = ds.take(k + 1);
            assert(next.drop_last() == ds.take(k as int));
            assert(next.last() == dirs@[k as int]@);
            assert(roots_view(r@) =~= before + roots_in(dirs@[k as int]@, th));
        }
        k = k + 1;
    }
    assert(ds.take(dirs.len() as int) == ds);
    r
}

} // verus!
