//! The argument list that launching an entry runs.

use vstd::prelude::*;
use crate::entry::{opt_view, strings_view};
use crate::text::{chars_of, range_eq, space_bounds, split_space, string_from, string_of};

verus! {

/// Field codes of a descriptor's command, which the launcher drops.
pub open spec fn is_field_code(w: Seq<char>) -> bool {
    w == "%U"@ || w == "%u"@ || w == "%F"@ || w == "%f"@ || w == "@@"@ || w == "@@u"@
}

/// The words of a command, without its field codes.
pub open spec fn command_words(command: Seq<char>) -> Seq<Seq<char>> {
    split_space(command).filter(|w: Seq<char>| w.len() > 0 && !is_field_code(w))
}

/// The argument list that runs `command`, inside the terminal that
/// `terminal_prefix` starts when `terminal` is set.
pub open spec fn argv_of(command: Seq<char>, terminal: bool, terminal_prefix: Seq<Seq<char>>) -> Seq<Seq<char>> {
    if terminal {
        terminal_prefix + command_words(command)
    } else {
        command_words(command)
    }
}

fn field_code(v: &Vec<char>, a: usize, b: usize) -> (r: bool)
    requires
        a <= b <= v.len(),
    ensures
        r == is_field_code(v@.subrange(a as int, b as int)),
{
    range_eq(v, a, b, &chars_of("%U")) || range_eq(v, a, b, &chars_of("%u")) || range_eq(
        v,
        a,
        b,
        &chars_of("%F"),
    ) || range_eq(v, a, b, &chars_of("%f")) || range_eq(v, a, b, &chars_of("@@")) || range_eq(
        v,
        a,
        b,
        &chars_of("@@u"),
    )
}

/// The argument list that launching an entry runs: its command split at
/// white space, field codes dropped, behind the terminal's own arguments
/// when the entry runs in a terminal.
pub fn launch_argv(command: &str, terminal: bool, terminal_prefix: &Vec<String>) -> (r: Vec<String>)
    ensures
        strings_view(r@) == argv_of(command@, terminal, strings_view(terminal_prefix@)),
{
    let ghost keep = |w: Seq<char>| w.len() > 0 && !is_field_code(w);
    let mut r: Vec<String> = Vec::new();
    if terminal {
        let mut i: usize = 0;
        while i < terminal_prefix.len()
            invariant
                i <= terminal_prefix.len(),
                strings_view(r@) == strings_view(terminal_prefix@.take(i as int)),
            decreases terminal_prefix.len() - i,
        {
            let ghost before = r@;
            r.push(terminal_prefix[i].clone());
            assert(strings_view(r@) =~= strings_view(before).push(terminal_prefix@[i as int]@));
            assert(strings_view(terminal_prefix@.take(i + 1)) =~= strings_view(terminal_prefix@.take(i as int)).push(terminal_prefix@[i as int]@));
            i = i + 1;
        }
        assert(terminal_prefix@.take(terminal_prefix.len() as int) == terminal_prefix@);
    }
    let ghost head = strings_view(r@);
    let v = chars_of(command);
    let ghost parts = split_space(v@);
    let bounds = space_bounds(&v);
    let mut k: usize = 0;
    while k < bounds.len()
        invariant
            k <= bounds.len() == parts.len(),
            parts == split_space(v@),
            v@ == command@,
            keep == (|w: Seq<char>| w.len() > 0 && !is_field_code(w)),
            forall|j: int|
                0 <= j < bounds.len() ==> (#[trigger] bounds[j]).0 <= bounds[j].1 <= v.len()
                    && v@.subrange(bounds[j].0 as int, bounds[j].1 as int) == parts[j],
            strings_view(r@) == head + parts.take(k as int).filter(keep),
        decreases bounds.len() - k,
    {
        let (a, b) = bounds[k];
        let ghost before = r@;
        let ghost next = parts.take(k + 1);
        proof {
            assert(next.drop_last() == parts.take(k as int));
            assert(next.last() == parts[k as int]);
            reveal_with_fuel(Seq::filter, 2);
        }
        if a < b && !field_code(&v, a, b) {
            r.push(string_of(&v, a, b));
            assert(strings_view(r@) =~= strings_view(before).push(parts[k as int]));
        }
        k = k + 1;
    }
    assert(parts.take(parts.len() as int) == parts);
    proof {
        if !terminal {
            assert(head =~= Seq::<Seq<char>>::empty());
        }
    }
    r
}

/// The terminal that commands of terminal entries run in: the one the
/// `TERMINAL` setting names, else the usual terminal of the desktop
/// environment, else `xterm`.
pub open spec fn terminal_of(terminal: Option<Seq<char>>, desktop: Option<Seq<char>>) -> Seq<Seq<char>> {
    match terminal {
        Some(t) => seq![t],
        None => match desktop {
            Some(d) => if d == "GNOME"@ {
                seq!["kgx"@, "-e"@]
            } else if d == "KDE"@ {
                seq!["konsole"@]
            } else if d == "XFCE"@ {
                seq!["xfce4-terminal"@]
            } else if d == "LXQt"@ {
                seq!["lxterminal"@]
            } else {
                seq!["xterm"@]
            },
            None => seq!["xterm"@],
        },
    }
}

fn is_word(v: &Vec<char>, w: &str) -> (r: bool)
    ensures
        r == (v@ == w@),
{
    let x = chars_of(w);
    assert(v@.subrange(0, v.len() as int) == v@);
    range_eq(v, 0, v.len(), &x)
}

fn one(a: &str) -> (r: Vec<String>)
    ensures
        strings_view(r@) == seq![a@],
{
    let mut r: Vec<String> = Vec::new();
    r.push(string_from(a));
    assert(strings_view(r@) =~= seq![a@]);
    r
}

/// The terminal's own arguments, given the `TERMINAL` setting and the
/// current desktop environment.
pub fn default_terminal(terminal: &Option<String>, desktop: &Option<String>) -> (r: Vec<String>)
    ensures
        strings_view(r@) == terminal_of(opt_view(*terminal), opt_view(*desktop)),
{
    match terminal {
        Some(t) => {
            let mut r: Vec<String> = Vec::new();
            r.push(t.clone());
            assert(strings_view(r@) =~= seq![t@]);
            r
        },
        None => match desktop {
            Some(d) => {
                let v = chars_of(d.as_str());
                if is_word(&v, "GNOME") {
                    let mut r = one("kgx");
                    let ghost before = r@;
                    r.push(string_from("-e"));
                    assert(strings_view(r@) =~= strings_view(before).push("-e"@));
                    assert(strings_view(r@) =~= seq!["kgx"@, "-e"@]);
                    r
                } else if is_word(&v, "KDE") {
                    one("konsole")
                } else if is_word(&v, "XFCE") {
                    one("xfce4-terminal")
                } else if is_word(&v, "LXQt") {
                    one("lxterminal")
                } else {
                    one("xterm")
                }
            },
            None => one("xterm"),
        },
    }
}

} // verus!
