//! Parsing of application descriptor files (freedesktop `.desktop` files).
//!
//! A file is a sequence of lines. After trimming, a line starting with `#`
//! is a comment; the line `[Desktop Entry]` opens a new entry; any other
//! bracketed line opens a section whose keys are ignored until the next
//! `[Desktop Entry]`. Inside an entry, `key=value` lines set its fields.

use vstd::prelude::*;
use crate::entry::{Entry, EntryIndex, EntryView, empty_entry, strings_view};
use crate::text::{
    chars_of, find_first, first_index, is_space, push_str, range_eq, split, split_bounds,
    starts_with, string_of, trim, trim_bounds, trim_end, trim_start,
};

verus! {

/// What a parser honours: the localized name and comment keys, and
/// whether a plain `Comment` fills a command that is still empty.
pub ghost struct ParseSettings {
    pub name: Option<Seq<char>>,
    pub comment: Option<Seq<char>>,
    pub comment_as_command: bool,
}

/// `Name[<code>]` and `Comment[<code>]` for a locale code, none without
/// one; a plain `Comment` fills an empty command.
pub open spec fn keys_for(code: Option<Seq<char>>) -> ParseSettings {
    match code {
        Some(c) => ParseSettings {
            name: Some("Name["@ + c + "]"@),
            comment: Some("Comment["@ + c + "]"@),
            comment_as_command: true,
        },
        None => ParseSettings { name: None, comment: None, comment_as_command: true },
    }
}

/// The language part of a locale tag: what precedes its first `-`.
pub open spec fn language_of(tag: Seq<char>) -> Seq<char> {
    split(tag, '-')[0]
}

/// The header line that opens an entry.
pub open spec fn header() -> Seq<char> {
    "[Desktop Entry]"@
}

/// State of the line scanner: the entry being built, whether it will be
/// kept when it closes, and whether keys are read at this point.
pub ghost struct ScanState {
    pub cur: EntryView,
    pub found: bool,
    pub valid: bool,
}

/// The scanner before the first line: no entry open yet.
pub open spec fn initial_state() -> ScanState {
    ScanState { cur: empty_entry(), found: false, valid: true }
}

/// What the open entry contributes when it closes: itself, unless it was
/// hidden, never opened, or has no name.
pub open spec fn closing(st: ScanState) -> Seq<EntryView> {
    if st.found && st.cur.name.len() > 0 {
        seq![st.cur]
    } else {
        Seq::empty()
    }
}

/// The non-empty members of `s`, in order.
pub open spec fn non_empty(s: Seq<Seq<char>>) -> Seq<Seq<char>> {
    s.filter(|p: Seq<char>| p.len() > 0)
}

/// The keywords of a `Keywords` value: its `;`-separated non-empty parts.
pub open spec fn keyword_list(v: Seq<char>) -> Seq<Seq<char>> {
    non_empty(split(v, ';'))
}

/// The effect of the pair `k=v` on the scanner.
pub open spec fn apply_pair(keys: ParseSettings, st: ScanState, k: Seq<char>, v: Seq<char>) -> ScanState {
    let c0 = st.cur;
    let c1 = if keys.name == Some(k) { EntryView { name: v, ..c0 } } else { c0 };
    let c2 = if keys.comment == Some(k) { EntryView { description: Some(v), ..c1 } } else { c1 };
    let c3 = if k == "Name"@ {
        if c2.name.len() == 0 { EntryView { name: v, ..c2 } } else { c2 }
    } else if k == "Exec"@ {
        EntryView { command: v, ..c2 }
    } else if k == "Comment"@ {
        if keys.comment_as_command && c2.command.len() == 0 {
            EntryView { command: v, ..c2 }
        } else {
            c2
        }
    } else if k == "Keywords"@ {
        EntryView { keywords: Some(keyword_list(v)), ..c2 }
    } else if k == "Icon"@ {
        EntryView { icon: Some(v), ..c2 }
    } else {
        c2
    };
    let found = if k == "NoDisplay"@ && v == "true"@ { false } else { st.found };
    ScanState { cur: c3, found, valid: st.valid }
}

/// The effect of one line: the next state and the entries it closes.
pub open spec fn step(keys: ParseSettings, st: ScanState, line: Seq<char>) -> (ScanState, Seq<EntryView>) {
    let t = trim(line);
    if starts_with(t, '#') {
        (st, Seq::empty())
    } else if t == header() {
        (ScanState { cur: empty_entry(), found: true, valid: true }, closing(st))
    } else if starts_with(t, '[') {
        (ScanState { valid: false, ..st }, Seq::empty())
    } else if !st.valid {
        (st, Seq::empty())
    } else {
        match first_index(t, '=') {
            Some(i) => (apply_pair(keys, st, t.take(i), t.skip(i + 1)), Seq::empty()),
            None => (st, Seq::empty()),
        }
    }
}

/// The state after `lines`, and the entries they close, in order.
pub open spec fn run(keys: ParseSettings, st: ScanState, lines: Seq<Seq<char>>) -> (ScanState, Seq<EntryView>)
    decreases lines.len(),
{
    if lines.len() == 0 {
        (st, Seq::empty())
    } else {
        let (s1, e1) = run(keys, st, lines.drop_last());
        let (s2, e2) = step(keys, s1, lines.last());
        (s2, e1 + e2)
    }
}

/// The entries that a sequence of lines defines, in the order in which
/// they close.
pub open spec fn lines_entries(keys: ParseSettings, lines: Seq<Seq<char>>) -> Seq<EntryView> {
    let (st, es) = run(keys, initial_state(), lines);
    es + closing(st)
}

/// The entries of a file, in the order in which they close.
pub open spec fn file_entries(keys: ParseSettings, text: Seq<char>) -> Seq<EntryView> {
    lines_entries(keys, split(text, '\n'))
}

/// `m` after inserting each entry of `es` under its name, in order.
pub open spec fn add_all(m: Map<Seq<char>, EntryView>, es: Seq<EntryView>) -> Map<Seq<char>, EntryView>
    decreases es.len(),
{
    if es.len() == 0 {
        m
    } else {
        add_all(m, es.drop_last()).insert(es.last().name, es.last())
    }
}


/// The entries of several files, file after file.
pub open spec fn files_entries(keys: ParseSettings, files: Seq<Seq<char>>) -> Seq<EntryView>
    decreases files.len(),
{
    if files.len() == 0 {
        Seq::empty()
    } else {
        files_entries(keys, files.drop_last()) + file_entries(keys, files.last())
    }
}

/// The mapping that `es` alone produces: each name to its last entry.
pub open spec fn last_wins(es: Seq<EntryView>) -> Map<Seq<char>, EntryView> {
    add_all(Map::empty(), es)
}

/// Inserting a sequence of entries into `m` overrides `m` with the
/// sequence's own last-wins mapping.
pub proof fn lemma_add_all_overrides(m: Map<Seq<char>, EntryView>, es: Seq<EntryView>)
    ensures
        add_all(m, es) == m.union_prefer_right(last_wins(es)),
    decreases es.len(),
{
    if es.len() == 0 {
        assert(m.union_prefer_right(Map::empty()) =~= m);
    } else {
        lemma_add_all_overrides(m, es.drop_last());
        lemma_add_all_overrides(Map::empty(), es.drop_last());
        assert(Map::<Seq<char>, EntryView>::empty().union_prefer_right(last_wins(es.drop_last()))
            =~= last_wins(es.drop_last()));
        assert(add_all(m, es) =~= m.union_prefer_right(last_wins(es)));
    }
}

/// Idempotence: scanning a set of files again on top of the index it
/// produced leaves that index unchanged, and two scans of the same files
/// from the same index agree.
pub proof fn lemma_scan_idempotent(keys: ParseSettings, m: Map<Seq<char>, EntryView>, files: Seq<Seq<char>>)
    ensures
        add_all(add_all(m, files_entries(keys, files)), files_entries(keys, files)) == add_all(
            m,
            files_entries(keys, files),
        ),
{
    let es = files_entries(keys, files);
    lemma_add_all_overrides(m, es);
    lemma_add_all_overrides(add_all(m, es), es);
    assert(m.union_prefer_right(last_wins(es)).union_prefer_right(last_wins(es)) =~= m.union_prefer_right(
        last_wins(es),
    ));
}

/// Last file wins: for every name that a file declares, the index after
/// scanning it holds exactly that file's entry for the name, whatever
/// earlier files or the index held before; no fields are merged.
pub proof fn lemma_later_file_wins(
    keys: ParseSettings,
    m: Map<Seq<char>, EntryView>,
    earlier: Seq<Seq<char>>,
    later: Seq<char>,
    name: Seq<char>,
)
    requires
        last_wins(file_entries(keys, later)).contains_key(name),
    ensures
        add_all(m, files_entries(keys, earlier.push(later))).contains_key(name),
        add_all(m, files_entries(keys, earlier.push(later)))[name] == last_wins(
            file_entries(keys, later),
        )[name],
{
    let all = earlier.push(later);
    assert(all.drop_last() == earlier);
    assert(all.last() == later);
    let a = files_entries(keys, earlier);
    let b = file_entries(keys, later);
    lemma_add_all_append(m, a, b);
    lemma_add_all_overrides(add_all(m, a), b);
}

proof fn lemma_run_append(keys: ParseSettings, st: ScanState, a: Seq<Seq<char>>, b: Seq<Seq<char>>)
    ensures
        run(keys, st, a + b).0 == run(keys, run(keys, st, a).0, b).0,
        run(keys, st, a + b).1 == run(keys, st, a).1 + run(keys, run(keys, st, a).0, b).1,
    decreases b.len(),
{
    if b.len() == 0 {
        assert(a + b =~= a);
        assert(run(keys, st, a).1 + Seq::<EntryView>::empty() =~= run(keys, st, a).1);
    } else {
        lemma_run_append(keys, st, a, b.drop_last());
        assert((a + b).drop_last() =~= a + b.drop_last());
        assert((a + b).last() == b.last());
        let mid = run(keys, st, a).0;
        let r = run(keys, mid, b.drop_last());
        let s2 = step(keys, r.0, b.last());
        assert(run(keys, st, a).1 + r.1 + s2.1 =~= run(keys, st, a).1 + (r.1 + s2.1));
    }
}

proof fn lemma_run_one(keys: ParseSettings, st: ScanState, line: Seq<char>)
    ensures
        run(keys, st, seq![line]) == step(keys, st, line),
{
    let one = seq![line];
    assert(one.drop_last() =~= Seq::<Seq<char>>::empty());
    assert(one.last() == line);
    assert(run(keys, st, one.drop_last()) == (st, Seq::<EntryView>::empty()));
    assert(Seq::<EntryView>::empty() + step(keys, st, line).1 =~= step(keys, st, line).1);
    assert(run(keys, st, one) == (step(keys, st, line).0, Seq::<EntryView>::empty() + step(
        keys,
        st,
        line,
    ).1));
}

/// Lines that open no entry close none, never unhide the open entry, and
/// keep keys readable unless one of them opens another section.
proof fn lemma_quiet_lines(keys: ParseSettings, st: ScanState, b: Seq<Seq<char>>)
    requires
        forall|i: int| 0 <= i < b.len() ==> trim(#[trigger] b[i]) != header(),
    ensures
        run(keys, st, b).1 == Seq::<EntryView>::empty(),
        !st.found ==> !run(keys, st, b).0.found,
        st.valid && (forall|i: int| 0 <= i < b.len() ==> !starts_with(trim(#[trigger] b[i]), '['))
            ==> run(keys, st, b).0.valid,
    decreases b.len(),
{
    if b.len() > 0 {
        let p = b.drop_last();
        assert forall|i: int| 0 <= i < p.len() implies trim(#[trigger] p[i]) != header() by {
            assert(p[i] == b[i]);
        }
        lemma_quiet_lines(keys, st, p);
        if st.valid && (forall|i: int| 0 <= i < b.len() ==> !starts_with(trim(#[trigger] b[i]), '[')) {
            assert forall|i: int| 0 <= i < p.len() implies !starts_with(trim(#[trigger] p[i]), '[') by {
                assert(p[i] == b[i]);
            }
        }
        assert(trim(b[b.len() - 1]) != header());
        assert(Seq::<EntryView>::empty() + Seq::<EntryView>::empty() =~= Seq::<EntryView>::empty());
    }
}

/// A `NoDisplay=true` line read inside an entry hides it.
proof fn lemma_hiding_line(keys: ParseSettings, st: ScanState, line: Seq<char>)
    requires
        trim(line) == "NoDisplay=true"@,
        st.valid,
    ensures
        !step(keys, st, line).0.found,
        step(keys, st, line).0.valid,
        step(keys, st, line).1 == Seq::<EntryView>::empty(),
{
    let t = trim(line);
    reveal_strlit("NoDisplay=true");
    reveal_strlit("[Desktop Entry]");
    reveal_strlit("NoDisplay");
    reveal_strlit("true");
    assert(t[0] == 'N');
    assert(t != header());
    assert(t[9] == '=');
    assert(forall|j: int| 0 <= j < 9 ==> t[j] != '=');
    let w = choose|i: int| 0 <= i < t.len() && t[i] == '=' && forall|j: int| 0 <= j < i ==> t[j] != '=';
    assert(w == 9);
    assert(t.take(9) =~= "NoDisplay"@);
    assert(t.skip(10) =~= "true"@);
}

/// A hidden entry contributes nothing: removing from a file an entry whose
/// keys include `NoDisplay=true` (the header line `h`, then `body`, up to
/// the next header or the end of the file) leaves the file's entries
/// unchanged.
pub proof fn lemma_hidden_entry_contributes_nothing(
    keys: ParseSettings,
    prefix: Seq<Seq<char>>,
    h: Seq<char>,
    body: Seq<Seq<char>>,
    suffix: Seq<Seq<char>>,
    j: int,
)
    requires
        trim(h) == header(),
        0 <= j < body.len(),
        trim(body[j]) == "NoDisplay=true"@,
        forall|i: int| 0 <= i < body.len() ==> trim(#[trigger] body[i]) != header(),
        forall|i: int| 0 <= i < j ==> !starts_with(trim(#[trigger] body[i]), '['),
        suffix.len() == 0 || trim(suffix[0]) == header(),
    ensures
        lines_entries(keys, prefix + seq![h] + body + suffix) == lines_entries(keys, prefix + suffix),
{
    reveal_strlit("[Desktop Entry]");
    let init = initial_state();
    let (sp, ep) = run(keys, init, prefix);
    let fresh = ScanState { cur: empty_entry(), found: true, valid: true };
    assert(trim(h)[0] == '[');
    assert(step(keys, sp, h) == (fresh, closing(sp)));
    lemma_run_append(keys, init, prefix, seq![h]);
    lemma_run_one(keys, sp, h);
    let b1 = body.take(j);
    let nd = body[j];
    let b2 = body.skip(j + 1);
    assert(body =~= b1 + seq![nd] + b2);
    assert forall|i: int| 0 <= i < b1.len() implies trim(#[trigger] b1[i]) != header() && !starts_with(trim(b1[i]), '[') by {
        assert(b1[i] == body[i]);
    }
    assert forall|i: int| 0 <= i < b2.len() implies trim(#[trigger] b2[i]) != header() by {
        assert(b2[i] == body[i + j + 1]);
    }
    lemma_quiet_lines(keys, fresh, b1);
    let x = run(keys, fresh, b1).0;
    lemma_hiding_line(keys, x, nd);
    lemma_run_one(keys, x, nd);
    let y0 = step(keys, x, nd).0;
    lemma_quiet_lines(keys, y0, b2);
    lemma_run_append(keys, fresh, b1, seq![nd]);
    lemma_run_append(keys, fresh, b1 + seq![nd], b2);
    let y = run(keys, fresh, body).0;
    assert(run(keys, fresh, body).1 =~= Seq::<EntryView>::empty());
    assert(!y.found);
    let ph = prefix + seq![h];
    lemma_run_append(keys, init, ph, body);
    lemma_run_append(keys, init, ph + body, suffix);
    lemma_run_append(keys, init, prefix, suffix);
    assert(prefix + seq![h] + body + suffix == ph + body + suffix);
    if suffix.len() == 0 {
        assert(ph + body + suffix =~= ph + body);
        assert(prefix + suffix =~= prefix);
        assert(closing(y) =~= Seq::<EntryView>::empty());
        assert(run(keys, y, suffix) == (y, Seq::<EntryView>::empty()));
        assert(run(keys, sp, suffix) == (sp, Seq::<EntryView>::empty()));
        assert(lines_entries(keys, prefix + seq![h] + body + suffix) =~= ep + closing(sp));
        assert(lines_entries(keys, prefix + suffix) =~= ep + closing(sp));
    } else {
        let h2 = suffix[0];
        let rest = suffix.skip(1);
        assert(suffix =~= seq![h2] + rest);
        assert(trim(h2)[0] == '[');
        lemma_run_append(keys, y, seq![h2], rest);
        lemma_run_append(keys, sp, seq![h2], rest);
        lemma_run_one(keys, y, h2);
        lemma_run_one(keys, sp, h2);
        assert(step(keys, y, h2) == (fresh, Seq::<EntryView>::empty()));
        assert(step(keys, sp, h2) == (fresh, closing(sp)));
        let r = run(keys, fresh, rest);
        assert(run(keys, y, suffix).1 =~= r.1);
        assert(run(keys, sp, suffix).1 =~= closing(sp) + r.1);
        assert(lines_entries(keys, prefix + seq![h] + body + suffix) =~= ep + closing(sp) + r.1 + closing(r.0));
        assert(lines_entries(keys, prefix + suffix) =~= ep + closing(sp) + r.1 + closing(r.0));
    }
}


proof fn lemma_trim_unchanged(t: Seq<char>)
    requires
        t.len() > 0,
        !is_space(t[0]),
        !is_space(t.last()),
    ensures
        trim(t) == t,
{
    assert(trim_start(t) == t);
    assert(trim_end(t) == t);
}

/// The effect of a line `k=v` read inside an entry.
proof fn lemma_pair_line(keys: ParseSettings, st: ScanState, k: Seq<char>, v: Seq<char>)
    requires
        st.valid,
        k.len() > 0,
        k[0] == 'N',
        forall|i: int| 0 <= i < k.len() ==> k[i] != '=',
        v.len() > 0,
        !is_space(v.last()),
    ensures
        step(keys, st, k + "="@ + v) == (apply_pair(keys, st, k, v), Seq::<EntryView>::empty()),
{
    reveal_strlit("=");
    reveal_strlit("[Desktop Entry]");
    let t = k + "="@ + v;
    assert(t[0] == 'N');
    assert(t.last() == v.last());
    lemma_trim_unchanged(t);
    assert(t != header());
    let n = k.len() as int;
    assert(t[n] == '=');
    assert(forall|j: int| 0 <= j < n ==> t[j] == k[j]);
    let w = choose|i: int| 0 <= i < t.len() && t[i] == '=' && forall|j: int| 0 <= j < i ==> t[j] != '=';
    assert(w == n);
    assert(t.take(n) =~= k);
    assert(t.skip(n + 1) =~= v);
}

proof fn lemma_run_three(keys: ParseSettings, a: Seq<char>, b: Seq<char>, c: Seq<char>)
    ensures
        run(keys, initial_state(), seq![a, b, c]) == ({
            let (s1, e1) = step(keys, initial_state(), a);
            let (s2, e2) = step(keys, s1, b);
            let (s3, e3) = step(keys, s2, c);
            (s3, e1 + e2 + e3)
        }),
{
    let l = seq![a, b, c];
    assert(l.drop_last() =~= seq![a, b]);
    assert(l.last() == c);
    assert(seq![a, b].drop_last() =~= seq![a]);
    assert(seq![a, b].last() == b);
    lemma_run_one(keys, initial_state(), a);
    let (s1, e1) = step(keys, initial_state(), a);
    let (s2, e2) = step(keys, s1, b);
    let (s3, e3) = step(keys, s2, c);
    assert(run(keys, initial_state(), seq![a, b]) == (s2, e1 + e2));
    assert(run(keys, initial_state(), l) == (s3, e1 + e2 + e3));
}

/// Localized names: with a locale code, `Name[<code>]` names the entry
/// whether it comes before or after the plain `Name`; without one, the
/// plain `Name` does.
pub proof fn lemma_locale_override(h: Seq<char>, code: Seq<char>, plain: Seq<char>, local: Seq<char>)
    requires
        trim(h) == header(),
        forall|i: int| 0 <= i < code.len() ==> code[i] != '=',
        plain.len() > 0,
        !is_space(plain.last()),
        local.len() > 0,
        !is_space(local.last()),
    ensures
        ({
            let plain_line = "Name"@ + "="@ + plain;
            let local_line = "Name["@ + code + "]"@ + "="@ + local;
            let named = |n: Seq<char>| seq![EntryView { name: n, ..empty_entry() }];
            &&& lines_entries(keys_for(Some(code)), seq![h, plain_line, local_line]) == named(local)
            &&& lines_entries(keys_for(Some(code)), seq![h, local_line, plain_line]) == named(local)
            &&& lines_entries(keys_for(None), seq![h, plain_line, local_line]) == named(plain)
        }),
{
    reveal_strlit("Name");
    reveal_strlit("Name[");
    reveal_strlit("]");
    reveal_strlit("Comment[");
    reveal_strlit("Exec");
    reveal_strlit("Comment");
    reveal_strlit("Keywords");
    reveal_strlit("Icon");
    reveal_strlit("NoDisplay");
    reveal_strlit("[Desktop Entry]");
    let nk = "Name["@ + code + "]"@;
    let plain_line = "Name"@ + "="@ + plain;
    let local_line = nk + "="@ + local;
    assert("Name["@ + code + "]"@ + "="@ + local == local_line);
    let fresh = ScanState { cur: empty_entry(), found: true, valid: true };
    assert(trim(h)[0] == '[');
    assert(step(keys_for(None), initial_state(), h) == (fresh, Seq::<EntryView>::empty()));
    assert(nk.len() == code.len() + 6);
    assert(nk[0] == 'N' && nk[1] == 'a');
    assert(forall|i: int| 0 <= i < nk.len() ==> nk[i] != '=') by {
        assert forall|i: int| 0 <= i < nk.len() implies nk[i] != '=' by {
            if 5 <= i < 5 + code.len() {
                assert(nk[i] == code[i - 5]);
            }
        }
    }
    assert(nk != "Name"@ && nk != "Exec"@ && nk != "Icon"@);
    assert(nk != "Comment"@) by {
        if nk.len() == 7 {
            assert(nk[0] != "Comment"@[0]);
        }
    }
    assert(nk != "Keywords"@) by {
        if nk.len() == 8 {
            assert(nk[0] != "Keywords"@[0]);
        }
    }
    assert(nk != "NoDisplay"@) by {
        if nk.len() == 9 {
            assert(nk[1] != "NoDisplay"@[1]);
        }
    }
    let ck = "Comment["@ + code + "]"@;
    assert(ck != nk) by {
        assert(ck[0] != nk[0]);
    }
    assert(ck != "Name"@) by {
        assert(ck.len() != 4);
    }
    let named = |n: Seq<char>| seq![EntryView { name: n, ..empty_entry() }];
    let some = keys_for(Some(code));
    let none = keys_for(None);
    assert(step(some, initial_state(), h) == (fresh, Seq::<EntryView>::empty()));

    // Plain name, then localized name.
    lemma_pair_line(some, fresh, "Name"@, plain);
    let s1 = apply_pair(some, fresh, "Name"@, plain);
    assert(s1.cur.name == plain && s1.valid && s1.found);
    lemma_pair_line(some, s1, nk, local);
    let s2 = apply_pair(some, s1, nk, local);
    assert(s2 == ScanState { cur: EntryView { name: local, ..empty_entry() }, found: true, valid: true });
    lemma_run_three(some, h, plain_line, local_line);
    assert(lines_entries(some, seq![h, plain_line, local_line]) =~= named(local));

    // Localized name, then plain name.
    lemma_pair_line(some, fresh, nk, local);
    let t1 = apply_pair(some, fresh, nk, local);
    assert(t1.cur.name == local && t1.valid && t1.found);
    lemma_pair_line(some, t1, "Name"@, plain);
    let t2 = apply_pair(some, t1, "Name"@, plain);
    assert(t2 == ScanState { cur: EntryView { name: local, ..empty_entry() }, found: true, valid: true });
    lemma_run_three(some, h, local_line, plain_line);
    assert(lines_entries(some, seq![h, local_line, plain_line]) =~= named(local));

    // No locale: the localized key is an unknown key.
    lemma_pair_line(none, fresh, "Name"@, plain);
    let u1 = apply_pair(none, fresh, "Name"@, plain);
    lemma_pair_line(none, u1, nk, local);
    let u2 = apply_pair(none, u1, nk, local);
    assert(u2 == ScanState { cur: EntryView { name: plain, ..empty_entry() }, found: true, valid: true });
    lemma_run_three(none, h, plain_line, local_line);
    assert(lines_entries(none, seq![h, plain_line, local_line]) =~= named(plain));
}

/// Parser of descriptor files for one locale.
pub struct FreedesktopParser {
    locale_name_key: Option<String>,
    locale_comment_key: Option<String>,
    comment_as_command: bool,
}

impl View for FreedesktopParser {
    type V = ParseSettings;

    closed spec fn view(&self) -> ParseSettings {
        ParseSettings {
            name: match self.locale_name_key {
                Some(k) => Some(k@),
                None => None,
            },
            comment: match self.locale_comment_key {
                Some(k) => Some(k@),
                None => None,
            },
            comment_as_command: self.comment_as_command,
        }
    }
}

/// `prefix` + `code` + `]`.
fn bracketed(prefix: &str, code: &String) -> (r: String)
    ensures
        r@ == prefix@ + code@ + "]"@,
{
    let mut r = String::new();
    push_str(&mut r, prefix);
    push_str(&mut r, code.as_str());
    push_str(&mut r, "]");
    r
}

/// The keywords of the value `v[lo..hi]`.
fn keywords_in(v: &Vec<char>, lo: usize, hi: usize) -> (r: Vec<String>)
    requires
        lo <= hi <= v.len(),
    ensures
        strings_view(r@) == keyword_list(v@.subrange(lo as int, hi as int)),
{
    let ghost parts = split(v@.subrange(lo as int, hi as int), ';');
    let bounds = split_bounds(v, lo, hi, ';');
    let mut r: Vec<String> = Vec::new();
    let mut k: usize = 0;
    while k < bounds.len()
        invariant
            k <= bounds.len(),
            bounds.len() == parts.len(),
            parts == split(v@.subrange(lo as int, hi as int), ';'),
            forall|j: int|
                0 <= j < bounds.len() ==> lo <= (#[trigger] bounds[j]).0 <= bounds[j].1 <= hi
                    && v@.subrange(bounds[j].0 as int, bounds[j].1 as int) == parts[j],
            lo <= hi <= v.len(),
            strings_view(r@) == non_empty(parts.take(k as int)),
        decreases bounds.len() - k,
    {
        let (a, b) = bounds[k];
        let ghost before = r@;
        let ghost next = parts.take(k + 1);
        assert(next.drop_last() == parts.take(k as int));
        assert(next.last() == parts[k as int]);
        assert(next.len() == k + 1);
        reveal_with_fuel(Seq::filter, 2);
        assert(non_empty(next) == if parts[k as int].len() > 0 {
            non_empty(parts.take(k as int)).push(parts[k as int])
        } else {
            non_empty(parts.take(k as int))
        });
        if a < b {
            r.push(string_of(v, a, b));
            assert(strings_view(r@) =~= strings_view(before).push(parts[k as int]));
        }
        k = k + 1;
    }
    assert(parts.take(parts.len() as int) == parts);
    r
}


proof fn lemma_add_all_append(m: Map<Seq<char>, EntryView>, a: Seq<EntryView>, b: Seq<EntryView>)
    ensures
        add_all(m, a + b) == add_all(add_all(m, a), b),
    decreases b.len(),
{
    if b.len() == 0 {
        assert(a + b =~= a);
    } else {
        lemma_add_all_append(m, a, b.drop_last());
        assert((a + b).drop_last() =~= a + b.drop_last());
        assert((a + b).last() == b.last());
    }
}

proof fn lemma_add_one(m: Map<Seq<char>, EntryView>, x: EntryView)
    ensures
        add_all(m, seq![x]) == m.insert(x.name, x),
        add_all(m, Seq::empty()) == m,
{
    let one = seq![x];
    assert(one.drop_last() =~= Seq::<EntryView>::empty());
    assert(one.last() == x);
    assert(add_all(m, one) == add_all(m, one.drop_last()).insert(x.name, x));
}

/// The fixed words of the format, as characters.
struct Words {
    header: Vec<char>,
    name: Vec<char>,
    exec_key: Vec<char>,
    comment: Vec<char>,
    keywords: Vec<char>,
    icon: Vec<char>,
    no_display: Vec<char>,
    truth: Vec<char>,
    name_key: Option<Vec<char>>,
    comment_key: Option<Vec<char>>,
    comment_as_command: bool,
}

impl Words {
    spec fn holds(&self, keys: ParseSettings) -> bool {
        &&& self.header@ == header()
        &&& self.name@ == "Name"@
        &&& self.exec_key@ == "Exec"@
        &&& self.comment@ == "Comment"@
        &&& self.keywords@ == "Keywords"@
        &&& self.icon@ == "Icon"@
        &&& self.no_display@ == "NoDisplay"@
        &&& self.truth@ == "true"@
        &&& match self.name_key {
            Some(k) => keys.name == Some(k@),
            None => keys.name is None,
        }
        &&& match self.comment_key {
            Some(k) => keys.comment == Some(k@),
            None => keys.comment is None,
        }
        &&& self.comment_as_command == keys.comment_as_command
    }
}

/// The scanner's state, as values.
struct Cursor {
    cur: Entry,
    found: bool,
    valid: bool,
}

impl View for Cursor {
    type V = ScanState;

    closed spec fn view(&self) -> ScanState {
        ScanState { cur: self.cur@, found: self.found, valid: self.valid }
    }
}

/// Applies the pair `v[ka..kb]=v[va..vb]` to the scanner.
fn apply_pair_at(
    words: &Words,
    v: &Vec<char>,
    ka: usize,
    kb: usize,
    va: usize,
    vb: usize,
    st: Cursor,
    Ghost(keys): Ghost<ParseSettings>,
) -> (r: Cursor)
    requires
        words.holds(keys),
        ka <= kb <= v.len(),
        va <= vb <= v.len(),
    ensures
        r@ == apply_pair(keys, st@, v@.subrange(ka as int, kb as int), v@.subrange(va as int, vb as int)),
{
    let ghost k = v@.subrange(ka as int, kb as int);
    let ghost val = v@.subrange(va as int, vb as int);
    proof {
        reveal_strlit("Name");
        reveal_strlit("Exec");
        reveal_strlit("Comment");
        reveal_strlit("Keywords");
        reveal_strlit("Icon");
        reveal_strlit("NoDisplay");
        assert("NoDisplay"@.len() == 9);
        assert("Name"@.len() == 4 && "Exec"@.len() == 4 && "Icon"@.len() == 4);
        assert("Comment"@.len() == 7 && "Keywords"@.len() == 8);
    }
    let ghost c1 = if keys.name == Some(k) { EntryView { name: val, ..st@.cur } } else { st@.cur };
    let ghost c2 = if keys.comment == Some(k) { EntryView { description: Some(val), ..c1 } } else { c1 };
    let mut cur = st.cur;
    let mut found = st.found;
    if let Some(nk) = &words.name_key {
        if range_eq(v, ka, kb, nk) {
            cur.name = string_of(v, va, vb);
        }
    }
    assert(cur@ == c1);
    if let Some(ck) = &words.comment_key {
        if range_eq(v, ka, kb, ck) {
            cur.description = Some(string_of(v, va, vb));
        }
    }
    assert(cur@ == c2);
    if range_eq(v, ka, kb, &words.name) {
        if cur.name.as_str().is_empty() {
            cur.name = string_of(v, va, vb);
        }
    } else if range_eq(v, ka, kb, &words.exec_key) {
        cur.command = string_of(v, va, vb);
    } else if range_eq(v, ka, kb, &words.comment) {
        if words.comment_as_command && cur.command.as_str().is_empty() {
            cur.command = string_of(v, va, vb);
        }
    } else if range_eq(v, ka, kb, &words.keywords) {
        cur.keywords = Some(keywords_in(v, va, vb));
    } else if range_eq(v, ka, kb, &words.icon) {
        cur.icon = Some(string_of(v, va, vb));
    } else if range_eq(v, ka, kb, &words.no_display) {
        if range_eq(v, va, vb, &words.truth) {
            found = false;
        }
    }
    Cursor { cur, found, valid: st.valid }
}

/// Scans the line `v[lo..hi]`: inserts into `out` the entry it closes, if
/// any, and returns the next state.
fn scan_line(
    words: &Words,
    v: &Vec<char>,
    lo: usize,
    hi: usize,
    st: Cursor,
    out: &mut EntryIndex,
    Ghost(keys): Ghost<ParseSettings>,
) -> (r: Cursor)
    requires
        words.holds(keys),
        lo <= hi <= v.len(),
    ensures
        r@ == step(keys, st@, v@.subrange(lo as int, hi as int)).0,
        final(out)@ == add_all(old(out)@, step(keys, st@, v@.subrange(lo as int, hi as int)).1),
{
    let ghost t = trim(v@.subrange(lo as int, hi as int));
    let (a, b) = trim_bounds(v, lo, hi);
    if a < b && v[a] == '#' {
        assert(add_all(out@, Seq::empty()) == out@);
        st
    } else if range_eq(v, a, b, &words.header) {
        let e = st.cur;
        if st.found && !e.name.as_str().is_empty() {
            proof {
                lemma_add_one(out@, st@.cur);
            }
            out.insert(e);
        } else {
            assert(add_all(out@, Seq::empty()) == out@);
        }
        Cursor { cur: Entry::default(), found: true, valid: true }
    } else if a < b && v[a] == '[' {
        assert(add_all(out@, Seq::empty()) == out@);
        Cursor { cur: st.cur, found: st.found, valid: false }
    } else if !st.valid {
        assert(add_all(out@, Seq::empty()) == out@);
        st
    } else {
        assert(add_all(out@, Seq::empty()) == out@);
        match find_first(v, a, b, '=') {
            Some(i) => {
                proof {
                    assert(t == v@.subrange(a as int, b as int));
                    assert(v@.subrange(a as int, a + i) =~= t.take(i as int));
                    assert(v@.subrange(a + i + 1, b as int) =~= t.skip(i + 1));
                }
                apply_pair_at(words, v, a, a + i, a + i + 1, b, st, Ghost(keys))
            },
            None => st,
        }
    }
}

/// The language part of a locale tag (`fr` for `fr-FR`).
pub fn language_code(tag: &str) -> (r: String)
    ensures
        r@ == language_of(tag@),
{
    let v = chars_of(tag);
    assert(v@.subrange(0, v.len() as int) == v@);
    let parts = split_bounds(&v, 0, v.len(), '-');
    proof {
        crate::text::lemma_split_len(v@, '-');
    }
    let (a, b) = parts[0];
    string_of(&v, a, b)
}

/// Relies on `sys_locale::get_locale`: the user's preferred locale tag,
/// if the environment names one. What it returns depends on the
/// environment, so nothing is stated of it.
#[verifier::external_body]
fn system_locale() -> (r: Option<String>) {
    sys_locale::get_locale()
}

impl FreedesktopParser {
    /// A parser for the language of the user's preferred locale, or one
    /// without localized keys when no locale is set.
    pub fn for_system_locale() -> (r: FreedesktopParser)
        ensures
            r@ == keys_for(None) || exists|tag: Seq<char>| r@ == keys_for(Some(language_of(tag))),
    {
        match system_locale() {
            Some(tag) => FreedesktopParser::new(Some(language_code(tag.as_str()))),
            None => FreedesktopParser::new(None),
        }
    }

    /// A parser that honours `Name[<code>]` and `Comment[<code>]` when a
    /// locale code is given.
    pub fn new(locale_code: Option<String>) -> (r: FreedesktopParser)
        ensures
            r@ == keys_for(
                match locale_code {
                    Some(c) => Some(c@),
                    None => None,
                },
            ),
    {
        match locale_code {
            Some(code) => FreedesktopParser {
                locale_name_key: Some(bracketed("Name[", &code)),
                locale_comment_key: Some(bracketed("Comment[", &code)),
                comment_as_command: true,
            },
            None => FreedesktopParser {
                locale_name_key: None,
                locale_comment_key: None,
                comment_as_command: true,
            },
        }
    }

    /// The same parser, with a plain `Comment` filling an empty command or
    /// not.
    pub fn with_comment_as_command(self, on: bool) -> (r: FreedesktopParser)
        ensures
            r@ == (ParseSettings { comment_as_command: on, ..self@ }),
    {
        FreedesktopParser { comment_as_command: on, ..self }
    }

    fn words(&self) -> (r: Words)
        ensures
            r.holds(self@),
    {
        Words {
            header: chars_of("[Desktop Entry]"),
            name: chars_of("Name"),
            exec_key: chars_of("Exec"),
            comment: chars_of("Comment"),
            keywords: chars_of("Keywords"),
            icon: chars_of("Icon"),
            no_display: chars_of("NoDisplay"),
            truth: chars_of("true"),
            name_key: match &self.locale_name_key {
                Some(k) => Some(chars_of(k.as_str())),
                None => None,
            },
            comment_key: match &self.locale_comment_key {
                Some(k) => Some(chars_of(k.as_str())),
                None => None,
            },
            comment_as_command: self.comment_as_command,
        }
    }

    /// Scans the text of one descriptor file and inserts each entry it
    /// defines into `entries`, later entries replacing earlier ones of the
    /// same name.
    pub fn parse(&self, text: &str, entries: &mut EntryIndex)
        ensures
            final(entries)@ == add_all(old(entries)@, file_entries(self@, text@)),
    {
        let ghost keys = self@;
        let words = self.words();
        let v = chars_of(text);
        let ghost lines = split(text@, '\n');
        assert(v@.subrange(0, v.len() as int) == v@);
        let bounds = split_bounds(&v, 0, v.len(), '\n');
        let mut st = Cursor { cur: Entry::default(), found: false, valid: true };
        let ghost es: Seq<EntryView> = Seq::empty();
        let ghost start = entries@;
        let mut k: usize = 0;
        while k < bounds.len()
            invariant
                words.holds(keys),
                v@ == text@,
                lines == split(text@, '\n'),
                k <= bounds.len() == lines.len(),
                forall|j: int|
                    0 <= j < bounds.len() ==> (#[trigger] bounds[j]).0 <= bounds[j].1 <= v.len()
                        && v@.subrange(bounds[j].0 as int, bounds[j].1 as int) == lines[j],
                (st@, es) == run(keys, initial_state(), lines.take(k as int)),
                entries@ == add_all(start, es),
            decreases bounds.len() - k,
        {
            let (lo, hi) = bounds[k];
            let ghost before = entries@;
            let ghost prev = st@;
            st = scan_line(&words, &v, lo, hi, st, entries, Ghost(keys));
            proof {
                let next = lines.take(k + 1);
                assert(next.drop_last() == lines.take(k as int));
                assert(next.last() == lines[k as int]);
                let e2 = step(keys, prev, lines[k as int]).1;
                lemma_add_all_append(start, es, e2);
                es = es + e2;
            }
            k = k + 1;
        }
        assert(lines.take(lines.len() as int) == lines);
        assert((st@, es) == run(keys, initial_state(), lines));
        let e = st.cur;
        if st.found && !e.name.as_str().is_empty() {
            proof {
                let c = closing(st@);
                lemma_add_one(entries@, st@.cur);
                lemma_add_all_append(start, es, c);
            }
            entries.insert(e);
        } else {
            assert(es + closing(st@) =~= es);
        }
    }

    /// Scans the texts of several descriptor files, in order, into a new
    /// index.
    pub fn parse_all(&self, texts: &Vec<String>) -> (r: EntryIndex)
        ensures
            r@ == add_all(Map::empty(), files_entries(self@, texts@.map_values(|t: String| t@))),
    {
        let ghost files = texts@.map_values(|t: String| t@);
        let mut index = EntryIndex::new();
        let mut i: usize = 0;
        while i < texts.len()
            invariant
                i <= texts.len(),
                files == texts@.map_values(|t: String| t@),
                index@ == add_all(Map::empty(), files_entries(self@, files.take(i as int))),
            decreases texts.len() - i,
        {
            let ghost before = index@;
            self.parse(texts[i].as_str(), &mut index);
            proof {
                let next = files.take(i + 1);
                assert(next.drop_last() == files.take(i as int));
                assert(next.last() == texts@[i as int]@);
                lemma_add_all_append(
                    Map::empty(),
                    files_entries(self@, files.take(i as int)),
                    file_entries(self@, texts@[i as int]@),
                );
            }
            i = i + 1;
        }
        assert(files.take(texts.len() as int) == files);
        index
    }
}

} // verus!
