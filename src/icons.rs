//! Icon resolution: each icon basename goes to the best candidate file,
//! where a file under the preferred theme beats a fallback one, and within
//! the same tier a higher resolution wins (scalable above any size).

use vstd::prelude::*;
use std::collections::HashMap;
use crate::text::{chars_of, find_last, last_index, split, split_bounds, string_of};

verus! {

broadcast use vstd::std_specs::hash::group_hash_axioms;

/// Resolution class of an icon directory.
#[derive(Clone, Copy, Debug, PartialEq, Eq, Structural)]
pub enum Resolution {
    /// Icons drawn for a fixed size (the width, in pixels).
    Fixed(usize),
    /// Vector icons, which fit any size.
    Scalable,
}

/// One icon file that may stand for its basename.
#[derive(Clone, Debug)]
pub struct Candidate {
    pub basename: String,
    pub resolution: Resolution,
    pub theme_match: bool,
    pub path: String,
}

/// The mathematical value of a [`Candidate`].
pub ghost struct CandidateView {
    pub basename: Seq<char>,
    pub resolution: Resolution,
    pub theme_match: bool,
    pub path: Seq<char>,
}

impl View for Candidate {
    type V = CandidateView;

    open spec fn view(&self) -> CandidateView {
        CandidateView {
            basename: self.basename@,
            resolution: self.resolution,
            theme_match: self.theme_match,
            path: self.path@,
        }
    }
}

/// `a` is a strictly higher resolution than `b`.
pub open spec fn higher(a: Resolution, b: Resolution) -> bool {
    match (a, b) {
        (Resolution::Scalable, Resolution::Fixed(_)) => true,
        (Resolution::Fixed(x), Resolution::Fixed(y)) => x > y,
        _ => false,
    }
}

/// `new` replaces `cur`: a theme match beats a fallback, and within the
/// same tier the higher resolution wins. Ties keep `cur`.
pub open spec fn better(new: CandidateView, cur: CandidateView) -> bool {
    (new.theme_match && !cur.theme_match) || (new.theme_match == cur.theme_match && higher(
        new.resolution,
        cur.resolution,
    ))
}

/// Whether `new` should replace `cur`.
pub fn better_than(new: &Candidate, cur: &Candidate) -> (r: bool)
    ensures
        r == better(new@, cur@),
{
    if new.theme_match != cur.theme_match {
        new.theme_match
    } else {
        match (new.resolution, cur.resolution) {
            (Resolution::Scalable, Resolution::Fixed(_)) => true,
            (Resolution::Fixed(x), Resolution::Fixed(y)) => x > y,
            _ => false,
        }
    }
}

/// The index after offering `c`: `c` goes in unless the candidate already
/// held for its basename is at least as good.
pub open spec fn offer_one(m: Map<Seq<char>, CandidateView>, c: CandidateView) -> Map<Seq<char>, CandidateView> {
    if m.contains_key(c.basename) && !better(c, m[c.basename]) {
        m
    } else {
        m.insert(c.basename, c)
    }
}

/// The index after offering each of `cs`, in order.
pub open spec fn offer_all(m: Map<Seq<char>, CandidateView>, cs: Seq<CandidateView>) -> Map<Seq<char>, CandidateView>
    decreases cs.len(),
{
    if cs.len() == 0 {
        m
    } else {
        offer_one(offer_all(m, cs.drop_last()), cs.last())
    }
}

/// The views of a list of candidates.
pub open spec fn candidates_view(v: Seq<Candidate>) -> Seq<CandidateView> {
    v.map_values(|c: Candidate| c@)
}

/// Selection is a fold with a pure comparison: after offering `cs` to an
/// empty index, each basename offered goes to one of its candidates, and
/// no candidate offered for it is better than the one held.
pub proof fn lemma_offer_all_selects_best(cs: Seq<CandidateView>)
    ensures
        forall|b: Seq<char>| #[trigger]
            offer_all(Map::empty(), cs).contains_key(b) ==> cs.contains(offer_all(Map::empty(), cs)[b])
                && offer_all(Map::empty(), cs)[b].basename == b,
        forall|i: int|
            0 <= i < cs.len() ==> offer_all(Map::empty(), cs).contains_key(#[trigger] cs[i].basename)
                && !better(cs[i], offer_all(Map::empty(), cs)[cs[i].basename]),
    decreases cs.len(),
{
    if cs.len() > 0 {
        let p = cs.drop_last();
        let x = cs.last();
        lemma_offer_all_selects_best(p);
        let r0 = offer_all(Map::empty(), p);
        let r = offer_all(Map::empty(), cs);
        assert(r == offer_one(r0, x));
        assert forall|b: Seq<char>| #[trigger] r.contains_key(b) implies cs.contains(r[b]) && r[b].basename == b by {
            if b != x.basename || (r0.contains_key(x.basename) && !better(x, r0[x.basename])) {
                assert(r0.contains_key(b));
                let j = choose|j: int| 0 <= j < p.len() && p[j] == r0[b];
                assert(cs[j] == p[j]);
            } else {
                assert(cs[cs.len() - 1] == x);
            }
        }
        assert forall|i: int| 0 <= i < cs.len() implies r.contains_key(#[trigger] cs[i].basename) && !better(cs[i], r[cs[i].basename]) by {
            if i < p.len() {
                assert(cs[i] == p[i]);
                assert(r0.contains_key(p[i].basename));
            }
        }
    }
}

/// A theme match beats a fallback whatever their resolutions: when any
/// candidate for a basename comes from the preferred theme, the one
/// selected does too.
pub proof fn lemma_theme_match_wins(cs: Seq<CandidateView>, i: int)
    requires
        0 <= i < cs.len(),
        cs[i].theme_match,
    ensures
        offer_all(Map::empty(), cs)[cs[i].basename].theme_match,
{
    lemma_offer_all_selects_best(cs);
}

/// Within a tier, a scalable candidate beats every fixed size: when a
/// scalable candidate is in the tier of the one selected, the one
/// selected is scalable.
pub proof fn lemma_scalable_wins(cs: Seq<CandidateView>, i: int)
    requires
        0 <= i < cs.len(),
        cs[i].resolution == Resolution::Scalable,
        offer_all(Map::empty(), cs)[cs[i].basename].theme_match == cs[i].theme_match,
    ensures
        offer_all(Map::empty(), cs)[cs[i].basename].resolution == Resolution::Scalable,
{
    lemma_offer_all_selects_best(cs);
}

/// Traversal order does not matter: offering the same candidates in any
/// order selects, for each basename, a candidate of the same tier and
/// resolution (only among equals may the first seen differ).
pub proof fn lemma_selection_order_independent(cs1: Seq<CandidateView>, cs2: Seq<CandidateView>)
    requires
        forall|c: CandidateView| cs1.contains(c) <==> cs2.contains(c),
    ensures
        offer_all(Map::empty(), cs1).dom() == offer_all(Map::empty(), cs2).dom(),
        forall|b: Seq<char>| #[trigger]
            offer_all(Map::empty(), cs1).contains_key(b) ==> offer_all(Map::empty(), cs1)[b].theme_match
                == offer_all(Map::empty(), cs2)[b].theme_match && offer_all(Map::empty(), cs1)[b].resolution
                == offer_all(Map::empty(), cs2)[b].resolution,
{
    lemma_offer_all_selects_best(cs1);
    lemma_offer_all_selects_best(cs2);
    let r1 = offer_all(Map::empty(), cs1);
    let r2 = offer_all(Map::empty(), cs2);
    assert forall|b: Seq<char>| r1.contains_key(b) implies #[trigger] r2.contains_key(b) by {
        let j = choose|j: int| 0 <= j < cs1.len() && cs1[j] == r1[b];
        assert(cs2.contains(cs1[j]));
        let k = choose|k: int| 0 <= k < cs2.len() && cs2[k] == cs1[j];
        assert(r2.contains_key(cs2[k].basename));
    }
    assert forall|b: Seq<char>| r2.contains_key(b) implies #[trigger] r1.contains_key(b) by {
        let j = choose|j: int| 0 <= j < cs2.len() && cs2[j] == r2[b];
        assert(cs1.contains(cs2[j]));
        let k = choose|k: int| 0 <= k < cs1.len() && cs1[k] == cs2[j];
        assert(r1.contains_key(cs1[k].basename));
    }
    assert(r1.dom() =~= r2.dom());
    assert forall|b: Seq<char>| #[trigger] r1.contains_key(b) implies r1[b].theme_match == r2[b].theme_match
        && r1[b].resolution == r2[b].resolution by {
        let j1 = choose|j: int| 0 <= j < cs1.len() && cs1[j] == r1[b];
        let j2 = choose|j: int| 0 <= j < cs2.len() && cs2[j] == r2[b];
        assert(cs2.contains(cs1[j1]));
        let k1 = choose|k: int| 0 <= k < cs2.len() && cs2[k] == cs1[j1];
        assert(cs1.contains(cs2[j2]));
        let k2 = choose|k: int| 0 <= k < cs1.len() && cs1[k] == cs2[j2];
        assert(!better(cs2[k1], r2[cs2[k1].basename]));
        assert(!better(cs1[k2], r1[cs1[k2].basename]));
    }
}

/// A file name without its final extension: what precedes its last `.`.
pub open spec fn basename_of(name: Seq<char>) -> Seq<char> {
    match last_index(name, '.') {
        Some(i) => name.take(i),
        None => name,
    }
}

/// The icon basename of a file name.
pub fn basename(file_name: &str) -> (r: String)
    ensures
        r@ == basename_of(file_name@),
{
    let v = chars_of(file_name);
    match find_last(&v, 0, v.len(), '.') {
        Some(i) => {
            assert(v@.subrange(0, v.len() as int) == v@);
            string_of(&v, 0, i)
        },
        None => {
            assert(v@.subrange(0, v.len() as int) == v@);
            string_of(&v, 0, v.len())
        },
    }
}

/// An ASCII decimal digit.
pub open spec fn is_digit(c: char) -> bool {
    '0' <= c && c <= '9'
}

/// The number that a string of decimal digits writes.
pub open spec fn decimal_value(s: Seq<char>) -> int
    decreases s.len(),
{
    if s.len() == 0 {
        0
    } else {
        decimal_value(s.drop_last()) * 10 + (s.last() as u32 - '0' as u32)
    }
}

/// What `str::parse::<usize>` gives: an optional `+` followed by at least
/// one decimal digit, of a value that fits.
pub open spec fn parsed_usize(s: Seq<char>) -> Option<usize> {
    let d = if s.len() > 0 && s[0] == '+' { s.drop_first() } else { s };
    if d.len() > 0 && (forall|i: int| 0 <= i < d.len() ==> is_digit(#[trigger] d[i]))
        && decimal_value(d) <= usize::MAX {
        Some(decimal_value(d) as usize)
    } else {
        None
    }
}

/// Relies on `str::parse::<usize>`: an optional `+`, then decimal digits
/// only, whose value fits in `usize`; anything else is an error.
#[verifier::external_body]
fn parse_usize(s: &str) -> (r: Option<usize>)
    ensures
        r == parsed_usize(s@),
{
    s.parse::<usize>().ok()
}

/// The resolution class that an icon directory's name gives: `symbolic`
/// directories are skipped, `scalable` ones hold vector icons, and any
/// other name is read as `<width>x<height>`, its width being the
/// resolution (zero when it is not a number).
pub open spec fn dir_resolution(name: Seq<char>) -> Option<Resolution> {
    if name == "symbolic"@ {
        None
    } else if name == "scalable"@ {
        Some(Resolution::Scalable)
    } else {
        match parsed_usize(split(name, 'x')[0]) {
            Some(n) => Some(Resolution::Fixed(n)),
            None => Some(Resolution::Fixed(0)),
        }
    }
}

/// The resolution class of an icon directory, `None` for one to skip.
pub fn resolution_of_dir(name: &str) -> (r: Option<Resolution>)
    ensures
        r == dir_resolution(name@),
{
    let v = chars_of(name);
    let symbolic = chars_of("symbolic");
    let scalable = chars_of("scalable");
    assert(v@.subrange(0, v.len() as int) == v@);
    if crate::text::range_eq(&v, 0, v.len(), &symbolic) {
        None
    } else if crate::text::range_eq(&v, 0, v.len(), &scalable) {
        Some(Resolution::Scalable)
    } else {
        let parts = split_bounds(&v, 0, v.len(), 'x');
        proof {
            crate::text::lemma_split_len(v@, 'x');
        }
        let (a, b) = parts[0];
        let width = string_of(&v, a, b);
        match parse_usize(width.as_str()) {
            Some(n) => Some(Resolution::Fixed(n)),
            None => Some(Resolution::Fixed(0)),
        }
    }
}

/// Bucket key of a basename.
pub open spec fn name_hash(s: Seq<char>) -> u64
    decreases s.len(),
{
    if s.len() == 0 {
        0
    } else {
        name_hash(s.drop_last()).wrapping_mul(31).wrapping_add(s.last() as u64)
    }
}

fn hash_of(s: &String) -> (r: u64)
    ensures
        r == name_hash(s@),
{
    let mut h: u64 = 0;
    for c in it: s.as_str().chars()
        invariant
            h == name_hash(it.seq().take(it.index() as int)),
            it.seq() == s@,
    {
        proof {
            let next = it.seq().take(it.index() + 1);
            assert(next.drop_last() == it.seq().take(it.index() as int));
            assert(next.last() == c);
        }
        h = h.wrapping_mul(31).wrapping_add(c as u64);
    }
    proof {
        assert(s@.take(s@.len() as int) == s@);
    }
    h
}

/// The mapping from basename to candidate that a list of slots stands for.
pub open spec fn slots_map(s: Seq<CandidateView>) -> Map<Seq<char>, CandidateView> {
    Map::new(
        |k: Seq<char>| exists|i: int| 0 <= i < s.len() && s[i].basename == k,
        |k: Seq<char>| s[choose|i: int| 0 <= i < s.len() && s[i].basename == k],
    )
}

/// The views of a list of slots.
pub open spec fn slots_view(v: Seq<Candidate>) -> Seq<CandidateView> {
    v.map_values(|c: Candidate| c@)
}

/// No two candidates of `s` share a basename.
pub open spec fn basenames_unique(s: Seq<CandidateView>) -> bool {
    forall|i: int, j: int|
        0 <= i < s.len() && 0 <= j < s.len() && i != j ==> s[i].basename != s[j].basename
}

proof fn lemma_slots_map_at(s: Seq<CandidateView>, i: int)
    requires
        basenames_unique(s),
        0 <= i < s.len(),
    ensures
        slots_map(s).contains_key(s[i].basename),
        slots_map(s)[s[i].basename] == s[i],
{
    let k = s[i].basename;
    assert(slots_map(s).dom().contains(k));
    let j = choose|j: int| 0 <= j < s.len() && s[j].basename == k;
    assert(j == i);
}

proof fn lemma_slots_map_update(s: Seq<CandidateView>, i: int, c: CandidateView)
    requires
        basenames_unique(s),
        0 <= i < s.len(),
        s[i].basename == c.basename,
    ensures
        basenames_unique(s.update(i, c)),
        slots_map(s.update(i, c)) == slots_map(s).insert(c.basename, c),
{
    let s2 = s.update(i, c);
    assert forall|a: int, b: int| 0 <= a < s2.len() && 0 <= b < s2.len() && a != b implies s2[a].basename != s2[b].basename by {
        if a != i && b != i {
            assert(s2[a] == s[a] && s2[b] == s[b]);
        } else if a == i {
            assert(s2[b] == s[b]);
        } else {
            assert(s2[a] == s[a]);
        }
    }
    let m = slots_map(s).insert(c.basename, c);
    assert forall|k: Seq<char>| #[trigger] slots_map(s2).contains_key(k) <==> m.contains_key(k) by {
        if slots_map(s).contains_key(k) && k != c.basename {
            let j = choose|j: int| 0 <= j < s.len() && s[j].basename == k;
            assert(s2[j].basename == k);
        }
        if slots_map(s2).contains_key(k) && k != c.basename {
            let j = choose|j: int| 0 <= j < s2.len() && s2[j].basename == k;
            assert(s[j].basename == k);
        }
        if k == c.basename {
            assert(s2[i].basename == k);
        }
    }
    assert forall|k: Seq<char>| #[trigger] slots_map(s2).contains_key(k) implies slots_map(s2)[k] == m[k] by {
        let j = choose|j: int| 0 <= j < s2.len() && s2[j].basename == k;
        lemma_slots_map_at(s2, j);
        if j != i {
            lemma_slots_map_at(s, j);
        }
    }
    assert(slots_map(s2) =~= m);
}

proof fn lemma_slots_map_push(s: Seq<CandidateView>, c: CandidateView)
    requires
        basenames_unique(s),
        forall|j: int| 0 <= j < s.len() ==> s[j].basename != c.basename,
    ensures
        basenames_unique(s.push(c)),
        slots_map(s.push(c)) == slots_map(s).insert(c.basename, c),
{
    let s2 = s.push(c);
    let m = slots_map(s).insert(c.basename, c);
    assert forall|k: Seq<char>| #[trigger] slots_map(s2).contains_key(k) <==> m.contains_key(k) by {
        if slots_map(s).contains_key(k) {
            let j = choose|j: int| 0 <= j < s.len() && s[j].basename == k;
            assert(s2[j].basename == k);
        }
        if slots_map(s2).contains_key(k) && k != c.basename {
            let j = choose|j: int| 0 <= j < s2.len() && s2[j].basename == k;
            assert(s[j].basename == k);
        }
        if k == c.basename {
            assert(s2[s.len() as int].basename == k);
        }
    }
    assert forall|k: Seq<char>| #[trigger] slots_map(s2).contains_key(k) implies slots_map(s2)[k] == m[k] by {
        let j = choose|j: int| 0 <= j < s2.len() && s2[j].basename == k;
        lemma_slots_map_at(s2, j);
        if j != s.len() {
            lemma_slots_map_at(s, j);
        }
    }
    assert(slots_map(s2) =~= m);
}

/// The best candidate found so far for each basename.
pub struct IconIndex {
    slots: Vec<Candidate>,
    buckets: HashMap<u64, Vec<usize>>,
}

impl View for IconIndex {
    type V = Map<Seq<char>, CandidateView>;

    closed spec fn view(&self) -> Map<Seq<char>, CandidateView> {
        slots_map(slots_view(self.slots@))
    }
}

impl IconIndex {
    #[verifier::type_invariant]
    spec fn inv(&self) -> bool {
        let s = slots_view(self.slots@);
        &&& basenames_unique(s)
        &&& forall|i: int|
            0 <= i < s.len() ==> self.buckets@.contains_key(#[trigger] name_hash(s[i].basename))
                && self.buckets@[name_hash(s[i].basename)]@.contains(i as usize)
        &&& forall|h: u64, j: int|
            #![trigger self.buckets@[h]@[j]]
            self.buckets@.contains_key(h) && 0 <= j < self.buckets@[h]@.len() ==> {
                let i = self.buckets@[h]@[j];
                &&& i < s.len()
                &&& name_hash(s[i as int].basename) == h
            }
    }

    /// An empty index.
    pub fn new() -> (r: IconIndex)
        ensures
            r@ == Map::<Seq<char>, CandidateView>::empty(),
    {
        let r = IconIndex { slots: Vec::new(), buckets: HashMap::new() };
        assert(r@ =~= Map::<Seq<char>, CandidateView>::empty());
        r
    }

    /// Slot of `name`, if held.
    fn slot_of(&self, name: &String, h: u64) -> (r: Option<usize>)
        requires
            h == name_hash(name@),
        ensures
            match r {
                Some(i) => i < self.slots@.len() && self.slots@[i as int].basename@ == name@,
                None => forall|i: int| 0 <= i < self.slots@.len() ==> self.slots@[i].basename@ != name@,
            },
    {
        proof {
            use_type_invariant(self);
        }
        match self.buckets.get(&h) {
            None => {
                proof {
                    assert forall|i: int| 0 <= i < self.slots@.len() implies self.slots@[i].basename@ != name@ by {
                        let s = slots_view(self.slots@);
                        assert(s[i].basename == self.slots@[i].basename@);
                        if self.slots@[i].basename@ == name@ {
                            assert(self.buckets@.contains_key(name_hash(s[i].basename)));
                        }
                    }
                }
                None
            },
            Some(bucket) => {
                assert(forall|q: int| 0 <= q < bucket@.len() ==> self.buckets@[h]@[q] < self.slots@.len());
                let mut j: usize = 0;
                while j < bucket.len()
                    invariant
                        self.buckets@.contains_key(h),
                        *bucket == self.buckets@[h],
                        j <= bucket.len(),
                        forall|q: int| 0 <= q < bucket@.len() ==> bucket@[q] < self.slots@.len(),
                        forall|q: int| 0 <= q < j ==> self.slots@[bucket@[q] as int].basename@ != name@,
                    decreases bucket.len() - j,
                {
                    let i = bucket[j];
                    proof {
                        assert(self.buckets@[h]@[j as int] == i);
                    }
                    if self.slots[i].basename == *name {
                        return Some(i);
                    }
                    j = j + 1;
                }
                proof {
                    use_type_invariant(self);
                    assert forall|i: int| 0 <= i < self.slots@.len() implies self.slots@[i].basename@ != name@ by {
                        let s = slots_view(self.slots@);
                        assert(s[i].basename == self.slots@[i].basename@);
                        if self.slots@[i].basename@ == name@ {
                            assert(name_hash(s[i].basename) == h);
                            assert(self.slots@.len() == self.slots.len());
                            assert((i as usize) as int == i);
                            assert(self.buckets@[h]@.contains(i as usize));
                            let q = choose|q: int| 0 <= q < bucket@.len() && bucket@[q] == i as usize;
                            assert(self.slots@[bucket@[q] as int].basename@ != name@);
                        }
                    }
                }
                None
            },
        }
    }

    /// Offers `c` for its basename: it is kept when no candidate is held
    /// for that basename yet, or when it is better than the one held.
    pub fn offer(&mut self, c: Candidate)
        ensures
            final(self)@ == offer_one(old(self)@, c@),
    {
        let mut this = IconIndex::new();
        std::mem::swap(self, &mut this);
        proof {
            use_type_invariant(&this);
        }
        let ghost m = this@;
        let h = hash_of(&c.basename);
        let pos = this.slot_of(&c.basename, h);
        let IconIndex { mut slots, mut buckets } = this;
        let ghost s = slots_view(slots@);
        let ghost b0 = buckets@;
        match pos {
            Some(i) => {
                proof {
                    assert(s[i as int] == slots@[i as int]@);
                    lemma_slots_map_at(s, i as int);
                }
                if better_than(&c, &slots[i]) {
                    slots.set(i, c);
                    proof {
                        assert(slots_view(slots@) =~= s.update(i as int, c@));
                        lemma_slots_map_update(s, i as int, c@);
                    }
                }
                proof {
                    let s2 = slots_view(slots@);
                    assert forall|k: int| 0 <= k < s2.len() implies #[trigger] name_hash(s2[k].basename) == name_hash(s[k].basename) by {
                        assert(s2[k].basename == s[k].basename);
                    }
                }
            },
            None => {
                let i = slots.len();
                proof {
                    assert forall|j: int| 0 <= j < s.len() implies s[j].basename != c@.basename by {
                        assert(s[j] == slots@[j]@);
                    }
                    lemma_slots_map_push(s, c@);
                }
                slots.push(c);
                let mut b = match buckets.remove(&h) {
                    Some(v) => v,
                    None => Vec::new(),
                };
                let ghost old_b = b@;
                proof {
                    assert(b0.contains_key(h) ==> old_b == b0[h]@);
                    assert(!b0.contains_key(h) ==> old_b == Seq::<usize>::empty());
                }
                b.push(i);
                buckets.insert(h, b);
                proof {
                    let s2 = slots_view(slots@);
                    assert(s2 =~= s.push(c@));
                    assert forall|k: int| 0 <= k < s2.len() implies buckets@.contains_key(#[trigger] name_hash(s2[k].basename))
                        && buckets@[name_hash(s2[k].basename)]@.contains(k as usize) by {
                        if k < s.len() {
                            assert(s2[k] == s[k]);
                            if name_hash(s[k].basename) == h {
                                let q = choose|q: int| 0 <= q < b0[h]@.len() && b0[h]@[q] == k as usize;
                                assert(buckets@[h]@[q] == k as usize);
                            }
                        } else {
                            assert(buckets@[h]@[old_b.len() as int] == i);
                        }
                    }
                    assert forall|g: u64, j: int|
                        #![trigger buckets@[g]@[j]]
                        buckets@.contains_key(g) && 0 <= j < buckets@[g]@.len() implies buckets@[g]@[j] < s2.len()
                            && name_hash(s2[buckets@[g]@[j] as int].basename) == g by {
                        if g == h {
                            if j < old_b.len() {
                                assert(buckets@[g]@[j] == b0[h]@[j]);
                            }
                        } else {
                            assert(buckets@[g] == b0[g]);
                        }
                    }
                }
            },
        }
        *self = IconIndex { slots, buckets };
    }

    /// The index that offering each of `cs`, in order, to an empty index
    /// produces.
    pub fn from_candidates(cs: Vec<Candidate>) -> (r: IconIndex)
        ensures
            r@ == offer_all(Map::empty(), candidates_view(cs@)),
    {
        let ghost all = candidates_view(cs@);
        let mut index = IconIndex::new();
        for c in it: cs
            invariant
                it.seq() == cs@,
                all == candidates_view(cs@),
                index@ == offer_all(Map::empty(), all.take(it.index() as int)),
        {
            proof {
                let k = it.index() as int;
                let next = all.take(k + 1);
                assert(next.drop_last() == all.take(k));
                assert(next.last() == c@);
            }
            index.offer(c);
        }
        assert(all.take(all.len() as int) == all);
        index
    }

    /// The candidate held for `name`, if any.
    pub fn get(&self, name: &String) -> (r: Option<&Candidate>)
        ensures
            match r {
                Some(c) => self@.contains_key(name@) && c@ == self@[name@],
                None => !self@.contains_key(name@),
            },
    {
        proof {
            use_type_invariant(self);
        }
        let h = hash_of(name);
        match self.slot_of(name, h) {
            Some(i) => {
                proof {
                    let s = slots_view(self.slots@);
                    assert(s[i as int] == self.slots@[i as int]@);
                    lemma_slots_map_at(s, i as int);
                }
                Some(&self.slots[i])
            },
            None => {
                proof {
                    let s = slots_view(self.slots@);
                    if self@.contains_key(name@) {
                        let i = choose|i: int| 0 <= i < s.len() && s[i].basename == name@;
                        assert(self.slots@[i]@ == s[i]);
                    }
                }
                None
            },
        }
    }
}

} // verus!
