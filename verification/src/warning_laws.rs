//! When a warning is silent, and what it tells where it is not.

use crate::bytes::shown;
use crate::claims::Site;
use crate::discover::{relative, Governed, Governee, SeenEdition};
use crate::manifest::first_quoted;
use crate::number::decimal;
use crate::order::{sorted, sorting_orders_and_keeps, text_le, Ranked};
use crate::path::{parent, same_path};
use crate::style::{no_style, plain_style_adds_nothing, Palette, Style};
use crate::text::{has_text, joined, lines, trim_end, trim_start};
use crate::text_laws::{
    a_text_occurs_between_two_others, joining_keeps_each_text, parts_of_parts_occur,
};
use crate::warnings::{
    also_claimed, claim_span, collision_text, config_edition_text, config_editions_text,
    edition_example, editions_differ, help_line, implicit_edition_text, line_view, mismatched,
    multi_edition_text, name_list, names_of, note_line, pointer, quoted, repeated, shadow_count,
    shadow_lines, shadow_text, shadows, stable_rustfmt_text, warning_line,
};
use vstd::prelude::*;
use vstd::utf8::encode_utf8;

verus! {

/// Without styles, each line of a diagnostic is its label and the text.
pub proof fn plain_lines_are_label_and_text(p: Palette, rest: Seq<char>)
    requires
        p.warning == no_style(),
        p.note == no_style(),
        p.help == no_style(),
    ensures
        warning_line(p, rest) == "warning"@ + ": "@ + rest + "\n"@,
        note_line(p, rest) == "   "@ + "note"@ + ": "@ + rest + "\n"@,
        help_line(p, rest) == "   "@ + "help"@ + ": "@ + rest + "\n"@,
{
    plain_style_adds_nothing("warning"@);
    plain_style_adds_nothing("note"@);
    plain_style_adds_nothing("help"@);
}

proof fn lemma_lines_hold_the_text(p: Palette, rest: Seq<char>, part: Seq<char>)
    requires
        has_text(rest, part),
    ensures
        has_text(warning_line(p, rest), part),
        has_text(note_line(p, rest), part),
        has_text(help_line(p, rest), part),
{
    parts_of_parts_occur(p.warning.styled("warning"@) + ": "@, rest, "\n"@, part);
    parts_of_parts_occur("   "@ + p.note.styled("note"@) + ": "@, rest, "\n"@, part);
    parts_of_parts_occur("   "@ + p.help.styled("help"@) + ": "@, rest, "\n"@, part);
}

proof fn lemma_whole(s: Seq<char>)
    ensures
        has_text(s, s),
{
    let none = Seq::<char>::empty();
    a_text_occurs_between_two_others(s, none, s, none);
    assert(none + s + none =~= s);
}

proof fn lemma_ends_with_newline(s: Seq<char>)
    ensures
        (s + "\n"@).len() > 0,
        ""@.len() == 0,
{
    reveal_strlit("\n");
    reveal_strlit("");
}

/// A workspace is warned of exactly where it has more than one edition, and the
/// warning tells how many there are and names each with its crate.
pub proof fn every_edition_is_told(p: Palette, seen: Seq<SeenEdition>, i: int)
    ensures
        multi_edition_text(p, seen).len() == 0 <==> seen.len() <= 1,
        seen.len() > 1 ==> has_text(
            multi_edition_text(p, seen),
            "workspace mixes "@ + decimal(seen.len()) + " editions"@,
        ),
        seen.len() > 1 && 0 <= i < seen.len() ==> has_text(
            multi_edition_text(p, seen),
            seen[i].edition.year() + " (e.g. `"@ + seen[i].name@ + "`)"@,
        ),
{
    lemma_ends_with_newline(Seq::empty());
    if seen.len() > 1 {
        let parts = seen.map_values(|s: SeenEdition| edition_example(s));
        let list = joined(parts, ", "@);
        let head = "workspace mixes "@ + decimal(seen.len()) + " editions"@;
        let last = note_line(
            p,
            "rustfmt parses each crate per its own edition, so reserved-keyword identifiers may format differently across the boundary"@,
        );
        let a = warning_line(p, head);
        let b = note_line(p, list);
        let text = multi_edition_text(p, seen);
        assert(text == a + b + last + "\n"@);
        lemma_ends_with_newline(a + b + last);
        lemma_whole(head);
        lemma_lines_hold_the_text(p, head, head);
        parts_of_parts_occur(Seq::empty(), a, b + last + "\n"@, head);
        assert(text =~= a + (b + last + "\n"@));
        if 0 <= i < seen.len() {
            let part = seen[i].edition.year() + " (e.g. `"@ + seen[i].name@ + "`)"@;
            assert(parts[i] == part);
            joining_keeps_each_text(parts, ", "@, i);
            lemma_lines_hold_the_text(p, list, part);
            parts_of_parts_occur(a, b, last + "\n"@, part);
            assert(text =~= a + b + (last + "\n"@));
        }
    }
}

/// A list of names holds each of them between backticks, and holds them in
/// alphabetical order.
pub proof fn every_name_is_listed(names: Seq<String>, i: int)
    requires
        0 <= i < names.len(),
    ensures
        has_text(name_list(names), "`"@ + names[i]@ + "`"@),
        sorted(names).to_multiset() == names.to_multiset(),
        forall|j: int, k: int|
            0 <= j <= k < sorted(names).len() ==> text_le(
                (#[trigger] sorted(names)[j])@,
                (#[trigger] sorted(names)[k])@,
            ),
{
    broadcast use vstd::seq_lib::group_to_multiset_ensures;

    sorting_orders_and_keeps(names);
    let s = sorted(names);
    assert(names.contains(names[i]));
    assert(names.to_multiset().count(names[i]) > 0);
    assert(s.contains(names[i]));
    let k = choose|k: int| 0 <= k < s.len() && s[k] == names[i];
    let parts = s.map_values(|n: String| quoted(n@));
    assert(parts[k] == quoted(names[i]@));
    joining_keeps_each_text(parts, ", "@, k);
    assert forall|x: int, y: int| 0 <= x <= y < s.len() implies text_le(
        (#[trigger] s[x])@,
        (#[trigger] s[y])@,
    ) by {
        assert(s[x].ranks_le(s[y]));
    }
}

/// The names of governed crates are those of all of them.
pub proof fn names_are_those_of_the_crates(crates: Seq<Governee>)
    ensures
        names_of(crates).len() == crates.len(),
        forall|i: int| 0 <= i < crates.len() ==> names_of(crates)[i] == (#[trigger] crates[i]).name,
{
}

/// One more configuration counts, and has its line, exactly where it stands
/// elsewhere than in the workspace root.
pub proof fn a_configuration_elsewhere_is_told(
    p: Palette,
    raw: Seq<u8>,
    canon: Seq<u8>,
    governed: Seq<Governed>,
    g: Governed,
)
    ensures
        shadow_count(raw, Seq::empty()) == 0,
        shadow_lines(p, raw, canon, Seq::empty()).len() == 0,
        parent(g.config@) is Some && same_path(parent(g.config@)->0, raw) ==> shadow_count(
            raw,
            governed.push(g),
        ) == shadow_count(raw, governed) && shadow_lines(p, raw, canon, governed.push(g))
            == shadow_lines(p, raw, canon, governed),
        parent(g.config@) is None || !same_path(parent(g.config@)->0, raw) ==> shadow_count(
            raw,
            governed.push(g),
        ) == shadow_count(raw, governed) + 1 && shadow_lines(p, raw, canon, governed.push(g))
            == shadow_lines(p, raw, canon, governed) + note_line(
            p,
            "`"@ + shown(relative(g.config@, raw, canon)) + "` governs "@ + name_list(
                names_of(g.crates@),
            ),
        ),
{
    assert(governed.push(g).drop_last() =~= governed);
}

proof fn lemma_shadow_lines(
    p: Palette,
    raw: Seq<u8>,
    canon: Seq<u8>,
    governed: Seq<Governed>,
    i: int,
)
    requires
        0 <= i < governed.len(),
        shadows(governed[i], raw),
    ensures
        shadow_count(raw, governed) > 0,
        has_text(
            shadow_lines(p, raw, canon, governed),
            "`"@ + shown(relative(governed[i].config@, raw, canon)) + "` governs "@ + name_list(
                names_of(governed[i].crates@),
            ),
        ),
    decreases governed.len(),
{
    let front = governed.drop_last();
    let g = governed[i];
    let part = "`"@ + shown(relative(g.config@, raw, canon)) + "` governs "@ + name_list(
        names_of(g.crates@),
    );
    let lines_before = shadow_lines(p, raw, canon, front);
    if i < front.len() {
        assert(front[i] == governed[i]);
        lemma_shadow_lines(p, raw, canon, front, i);
        let last = governed.last();
        parts_of_parts_occur(
            Seq::empty(),
            lines_before,
            note_line(
                p,
                "`"@ + shown(relative(last.config@, raw, canon)) + "` governs "@ + name_list(
                    names_of(last.crates@),
                ),
            ),
            part,
        );
    } else {
        lemma_whole(part);
        lemma_lines_hold_the_text(p, part, part);
        parts_of_parts_occur(lines_before, note_line(p, part), Seq::empty(), part);
    }
}

proof fn lemma_no_shadow(raw: Seq<u8>, governed: Seq<Governed>)
    requires
        forall|i: int| 0 <= i < governed.len() ==> !shadows(#[trigger] governed[i], raw),
    ensures
        shadow_count(raw, governed) == 0,
    decreases governed.len(),
{
    if governed.len() > 0 {
        let front = governed.drop_last();
        assert forall|i: int| 0 <= i < front.len() implies !shadows(#[trigger] front[i], raw) by {
            assert(front[i] == governed[i]);
        }
        assert(!shadows(governed[governed.len() - 1], raw));
        lemma_no_shadow(raw, front);
    }
}

/// Nothing is said of configurations exactly where each stands in the workspace
/// root; else each that does not is named, with the crates that it governs.
pub proof fn every_shadowing_configuration_is_told(
    p: Palette,
    raw: Seq<u8>,
    canon: Seq<u8>,
    governed: Seq<Governed>,
    i: int,
)
    ensures
        shadow_text(p, raw, canon, governed).len() == 0 <==> forall|j: int|
            0 <= j < governed.len() ==> parent((#[trigger] governed[j]).config@) is Some
                && same_path(parent(governed[j].config@)->0, raw),
        0 <= i < governed.len() && (parent(governed[i].config@) is None || !same_path(
            parent(governed[i].config@)->0,
            raw,
        )) ==> has_text(
            shadow_text(p, raw, canon, governed),
            "`"@ + shown(relative(governed[i].config@, raw, canon)) + "` governs "@ + name_list(
                names_of(governed[i].crates@),
            ),
        ),
{
    lemma_ends_with_newline(Seq::empty());
    let text = shadow_text(p, raw, canon, governed);
    let n = shadow_count(raw, governed);
    if n > 0 {
        let head = warning_line(
            p,
            decimal(n) + " nested rustfmt.toml file"@ + (if n == 1 {
                ""@
            } else {
                "s"@
            }) + " shadow"@ + (if n == 1 {
                "s"@
            } else {
                ""@
            }) + " the workspace config"@,
        );
        let body = shadow_lines(p, raw, canon, governed);
        let last = note_line(
            p,
            "rustfmt resolves config per file (walking up from each path), so these crates ignore the workspace-root rustfmt.toml"@,
        );
        assert(text == head + body + last + "\n"@);
        lemma_ends_with_newline(head + body + last);
        if 0 <= i < governed.len() && shadows(governed[i], raw) {
            let part = "`"@ + shown(relative(governed[i].config@, raw, canon)) + "` governs "@
                + name_list(names_of(governed[i].crates@));
            lemma_shadow_lines(p, raw, canon, governed, i);
            parts_of_parts_occur(head, body, last + "\n"@, part);
            assert(text =~= head + body + (last + "\n"@));
        }
        if forall|j: int|
            0 <= j < governed.len() ==> parent((#[trigger] governed[j]).config@) is Some
                && same_path(parent(governed[j].config@)->0, raw) {
            lemma_no_shadow(raw, governed);
        }
    } else {
        assert forall|j: int| 0 <= j < governed.len() implies parent(
            (#[trigger] governed[j]).config@,
        ) is Some && same_path(parent(governed[j].config@)->0, raw) by {
            if shadows(governed[j], raw) {
                lemma_shadow_lines(p, raw, canon, governed, j);
            }
        }
    }
}

/// The crates that a configuration's edition does not fit are exactly those of
/// another year, in their order.
pub proof fn mismatched_crates_have_another_year(
    crates: Seq<Governee>,
    g: Governee,
    edition: Seq<char>,
    x: Governee,
)
    ensures
        mismatched(Seq::empty(), edition).len() == 0,
        g.edition.year() == edition ==> mismatched(crates.push(g), edition) == mismatched(
            crates,
            edition,
        ),
        g.edition.year() != edition ==> mismatched(crates.push(g), edition) == mismatched(
            crates,
            edition,
        ).push(g),
        mismatched(crates, edition).contains(x) <==> crates.contains(x) && x.edition.year()
            != edition,
{
    assert(crates.push(g).drop_last() =~= crates);
    lemma_mismatched(crates, edition, x);
}

proof fn lemma_mismatched(crates: Seq<Governee>, edition: Seq<char>, x: Governee)
    ensures
        mismatched(crates, edition).contains(x) <==> crates.contains(x) && x.edition.year()
            != edition,
    decreases crates.len(),
{
    if crates.len() > 0 {
        let init = crates.drop_last();
        let front = mismatched(init, edition);
        let all = mismatched(crates, edition);
        lemma_mismatched(init, edition, x);
        assert(crates[crates.len() - 1] == crates.last());
        if crates.contains(x) && x.edition.year() != edition {
            let i = choose|i: int| 0 <= i < crates.len() && crates[i] == x;
            if i < init.len() {
                assert(init[i] == x);
                let k = choose|k: int| 0 <= k < front.len() && front[k] == x;
                assert(all[k] == x);
            } else {
                assert(all.last() == x);
            }
        }
        if all.contains(x) {
            let k = choose|k: int| 0 <= k < all.len() && all[k] == x;
            if k < front.len() {
                assert(front[k] == x);
                let i = choose|i: int| 0 <= i < init.len() && init[i] == x;
                assert(crates[i] == x);
            }
        }
    }
}

/// A configuration is warned of exactly where it was read, sets an edition, and
/// governs a crate of another one. The warning tells the configuration and the
/// edition, and as example such a crate that comes first by name.
pub proof fn a_configured_edition_is_told(
    p: Palette,
    config: Seq<char>,
    crates: Seq<Governee>,
    content: Option<String>,
)
    ensures
        content is None ==> config_edition_text(p, config, crates, content).len() == 0,
        content is Some && first_quoted(lines(content->0@), "edition"@) is None
            ==> config_edition_text(p, config, crates, content).len() == 0,
        content is Some && first_quoted(lines(content->0@), "edition"@) is Some ==> {
            let edition = first_quoted(lines(content->0@), "edition"@)->0;
            let text = config_edition_text(p, config, crates, content);
            &&& text.len() == 0 <==> forall|i: int|
                0 <= i < crates.len() ==> (#[trigger] crates[i]).edition.year() == edition
            &&& text.len() > 0 ==> has_text(
                text,
                "`"@ + config + "` sets `edition = \""@ + edition
                    + "\"`, which cargo ff overrides"@,
            )
            &&& text.len() > 0 ==> exists|i: int|
                0 <= i < crates.len() && (#[trigger] crates[i]).edition.year() != edition
                    && has_text(
                    text,
                    "(e.g. `"@ + crates[i].name@ + "` is edition "@ + crates[i].edition.year()
                        + ")"@,
                ) && forall|j: int|
                    0 <= j < crates.len() && (#[trigger] crates[j]).edition.year() != edition
                        ==> text_le(crates[i].name@, crates[j].name@)
        },
{
    broadcast use vstd::seq_lib::group_to_multiset_ensures;

    lemma_ends_with_newline(Seq::empty());
    if content is Some && first_quoted(lines(content->0@), "edition"@) is Some {
        let edition = first_quoted(lines(content->0@), "edition"@)->0;
        let text = config_edition_text(p, config, crates, content);
        let found = mismatched(crates, edition);
        let others = sorted(found);
        sorting_orders_and_keeps(found);
        if others.len() == 0 {
            assert forall|i: int| 0 <= i < crates.len() implies (
            #[trigger] crates[i]).edition.year() == edition by {
                lemma_mismatched(crates, edition, crates[i]);
                assert(crates.contains(crates[i]));
            }
        } else {
            let first = others[0];
            assert(others.contains(first));
            assert(found.to_multiset().count(first) > 0);
            assert(found.contains(first));
            lemma_mismatched(crates, edition, first);
            let i = choose|i: int| 0 <= i < crates.len() && crates[i] == first;
            assert(crates[i].edition.year() != edition);
            let head = "`"@ + config + "` sets `edition = \""@ + edition
                + "\"`, which cargo ff overrides"@;
            let example = "cargo ff passes `--edition` from each crate's Cargo.toml (e.g. `"@
                + first.name@ + "` is edition "@ + first.edition.year() + ")"@;
            let part = "(e.g. `"@ + first.name@ + "` is edition "@ + first.edition.year() + ")"@;
            let a = warning_line(p, head);
            let b = note_line(p, example);
            let c = note_line(
                p,
                "the rustfmt.toml `edition` still applies to a bare `rustfmt` run, so output can diverge from cargo ff / cargo fmt"@,
            );
            assert(text == a + b + c + "\n"@);
            lemma_ends_with_newline(a + b + c);
            lemma_whole(head);
            lemma_lines_hold_the_text(p, head, head);
            parts_of_parts_occur(Seq::empty(), a, b + c + "\n"@, head);
            assert(text =~= a + (b + c + "\n"@));
            lemma_example(first.name@, first.edition.year());
            lemma_lines_hold_the_text(p, example, part);
            parts_of_parts_occur(a, b, c + "\n"@, part);
            assert(text =~= a + b + (c + "\n"@));
            assert forall|j: int|
                0 <= j < crates.len() && (#[trigger] crates[j]).edition.year()
                    != edition implies text_le(crates[i].name@, crates[j].name@) by {
                lemma_mismatched(crates, edition, crates[j]);
                assert(crates.contains(crates[j]));
                assert(found.to_multiset().count(crates[j]) > 0);
                assert(others.contains(crates[j]));
                let k = choose|k: int| 0 <= k < others.len() && others[k] == crates[j];
                assert(others[0].ranks_le(others[k]));
            }
        }
    }
}

proof fn lemma_example(name: Seq<char>, year: Seq<char>)
    ensures
        has_text(
            "cargo ff passes `--edition` from each crate's Cargo.toml (e.g. `"@ + name
                + "` is edition "@ + year + ")"@,
            "(e.g. `"@ + name + "` is edition "@ + year + ")"@,
        ),
{
    reveal_strlit("cargo ff passes `--edition` from each crate's Cargo.toml (e.g. `");
    reveal_strlit("cargo ff passes `--edition` from each crate's Cargo.toml ");
    reveal_strlit("(e.g. `");
    let front = "cargo ff passes `--edition` from each crate's Cargo.toml "@;
    let none = Seq::<char>::empty();
    let part = "(e.g. `"@ + name + "` is edition "@ + year + ")"@;
    assert("cargo ff passes `--edition` from each crate's Cargo.toml (e.g. `"@ =~= front
        + "(e.g. `"@);
    assert("cargo ff passes `--edition` from each crate's Cargo.toml (e.g. `"@ + name
        + "` is edition "@ + year + ")"@ =~= front + part + none);
    a_text_occurs_between_two_others(part, front, part, none);
}

/// The configurations are told one after the other, each by what was read of it.
pub proof fn configurations_are_told_in_turn(
    p: Palette,
    raw: Seq<u8>,
    canon: Seq<u8>,
    governed: Seq<Governed>,
    g: Governed,
    contents: Seq<Option<String>>,
    content: Option<String>,
)
    requires
        governed.len() == contents.len(),
    ensures
        config_editions_text(p, raw, canon, Seq::empty(), Seq::empty()).len() == 0,
        config_editions_text(p, raw, canon, governed.push(g), contents.push(content))
            == config_editions_text(p, raw, canon, governed, contents) + config_edition_text(
            p,
            shown(relative(g.config@, raw, canon)),
            g.crates@,
            content,
        ),
{
    let n = governed.len() as int;
    assert(governed.push(g).take(n) =~= governed);
    lemma_same_contents(p, raw, canon, governed, contents.push(content), contents);
}

proof fn lemma_same_contents(
    p: Palette,
    raw: Seq<u8>,
    canon: Seq<u8>,
    governed: Seq<Governed>,
    a: Seq<Option<String>>,
    b: Seq<Option<String>>,
)
    requires
        forall|i: int| 0 <= i < governed.len() ==> a[i] == b[i],
    ensures
        config_editions_text(p, raw, canon, governed, a) == config_editions_text(
            p,
            raw,
            canon,
            governed,
            b,
        ),
    decreases governed.len(),
{
    if governed.len() > 0 {
        lemma_same_contents(p, raw, canon, governed.take(governed.len() - 1), a, b);
    }
}

/// Crates without an edition are warned of exactly where there are any, and each
/// of them is named.
pub proof fn every_implicit_edition_is_told(p: Palette, names: Seq<String>, i: int)
    ensures
        implicit_edition_text(p, names).len() == 0 <==> names.len() == 0,
        0 <= i < names.len() ==> has_text(
            implicit_edition_text(p, names),
            "`"@ + names[i]@ + "`"@,
        ),
        names.len() == 1 ==> has_text(
            implicit_edition_text(p, names),
            decimal(1) + " crate defaults to edition 2015"@,
        ),
        names.len() > 1 ==> has_text(
            implicit_edition_text(p, names),
            decimal(names.len()) + " crates default to edition 2015"@,
        ),
{
    lemma_ends_with_newline(Seq::empty());
    let n = names.len();
    if n > 0 {
        let text = implicit_edition_text(p, names);
        let head = decimal(n) + " crate"@ + (if n == 1 {
            ""@
        } else {
            "s"@
        }) + " default"@ + (if n == 1 {
            "s"@
        } else {
            ""@
        }) + " to edition 2015 (no `edition` in Cargo.toml)"@;
        let a = warning_line(p, head);
        let b = note_line(p, name_list(names));
        let c = help_line(
            p,
            "add `edition = \"2021\"` (or another) to each Cargo.toml — 2015 formats differently from later editions"@,
        );
        assert(text == a + b + c + "\n"@);
        lemma_ends_with_newline(a + b + c);
        lemma_implicit_head(n);
        let told = if n == 1 {
            decimal(1) + " crate defaults to edition 2015"@
        } else {
            decimal(n) + " crates default to edition 2015"@
        };
        lemma_lines_hold_the_text(p, head, told);
        parts_of_parts_occur(Seq::empty(), a, b + c + "\n"@, told);
        assert(text =~= a + (b + c + "\n"@));
        if 0 <= i < names.len() {
            let part = "`"@ + names[i]@ + "`"@;
            every_name_is_listed(names, i);
            lemma_lines_hold_the_text(p, name_list(names), part);
            parts_of_parts_occur(a, b, c + "\n"@, part);
            assert(text =~= a + b + (c + "\n"@));
        }
    }
}

proof fn lemma_implicit_head(n: nat)
    requires
        n > 0,
    ensures
        has_text(
            decimal(n) + " crate"@ + (if n == 1 {
                ""@
            } else {
                "s"@
            }) + " default"@ + (if n == 1 {
                "s"@
            } else {
                ""@
            }) + " to edition 2015 (no `edition` in Cargo.toml)"@,
            if n == 1 {
                decimal(1) + " crate defaults to edition 2015"@
            } else {
                decimal(n) + " crates default to edition 2015"@
            },
        ),
{
    reveal_strlit("");
    reveal_strlit("s");
    reveal_strlit(" crate");
    reveal_strlit(" default");
    reveal_strlit(" to edition 2015 (no `edition` in Cargo.toml)");
    reveal_strlit(" (no `edition` in Cargo.toml)");
    reveal_strlit(" crate defaults to edition 2015");
    reveal_strlit(" crates default to edition 2015");
    let rest = " (no `edition` in Cargo.toml)"@;
    let none = Seq::<char>::empty();
    let head = decimal(n) + " crate"@ + (if n == 1 {
        ""@
    } else {
        "s"@
    }) + " default"@ + (if n == 1 {
        "s"@
    } else {
        ""@
    }) + " to edition 2015 (no `edition` in Cargo.toml)"@;
    let told = if n == 1 {
        decimal(1) + " crate defaults to edition 2015"@
    } else {
        decimal(n) + " crates default to edition 2015"@
    };
    a_text_occurs_between_two_others(told, none, told, rest);
    assert(head =~= none + told + rest);
}

/// A rustfmt is warned of exactly where its version does not say that it is a
/// nightly, and the warning shows the version.
pub proof fn a_stable_rustfmt_is_told(p: Palette, version: Seq<char>)
    ensures
        stable_rustfmt_text(p, version).len() == 0 <==> has_text(version, "nightly"@),
        !has_text(version, "nightly"@) ==> has_text(
            stable_rustfmt_text(p, version),
            "`"@ + trim_end(trim_start(version)) + "`"@,
        ),
{
    lemma_ends_with_newline(Seq::empty());
    if !has_text(version, "nightly"@) {
        let text = stable_rustfmt_text(p, version);
        let part = "`"@ + trim_end(trim_start(version)) + "`"@;
        let a = warning_line(p, "rustfmt on PATH is the stable channel"@);
        let b = note_line(p, part);
        let c = note_line(p, "unstable rustfmt.toml options will be silently ignored"@);
        let d = help_line(p, "run via `cargo +nightly ff` for parity with `cargo +nightly fmt`"@);
        assert(text == a + b + c + d + "\n"@);
        lemma_ends_with_newline(a + b + c + d);
        lemma_whole(part);
        lemma_lines_hold_the_text(p, part, part);
        parts_of_parts_occur(a, b, c + d + "\n"@, part);
        assert(text =~= a + b + (c + d + "\n"@));
    }
}

/// The editions of two claimants are told exactly where they differ: that of the
/// first, which is used, and that of the second.
pub proof fn differing_editions_are_told(p: Palette, first: Site, second: Site)
    ensures
        editions_differ(p, first, second).len() == 0 <==> first.edition == second.edition,
        first.edition != second.edition ==> has_text(
            editions_differ(p, first, second),
            "`"@ + first.name + "`'s "@ + first.edition.year() + " over `"@ + second.name
                + "`'s "@ + second.edition.year(),
        ),
{
    if first.edition != second.edition {
        reveal_strlit(": editions differ — using `");
        reveal_strlit(": editions differ — using ");
        reveal_strlit("`");
        let text = editions_differ(p, first, second);
        let mark = "   "@ + p.frame.styled("="@) + " "@ + p.note.styled("note"@);
        let front = mark + ": editions differ — using "@;
        let part = "`"@ + first.name + "`'s "@ + first.edition.year() + " over `"@ + second.name
            + "`'s "@ + second.edition.year();
        lemma_ends_with_newline(front + part);
        a_text_occurs_between_two_others(part, front, part, "\n"@);
        assert(": editions differ — using `"@ =~= ": editions differ — using "@ + "`"@);
        assert(text =~= front + part + "\n"@);
    }
}

/// A collision tells the file, both claimants, and where each declares it.
pub proof fn a_collision_tells_both_claims(
    p: Palette,
    raw: Seq<u8>,
    canon: Seq<u8>,
    file: Seq<u8>,
    first: Site,
    second: Site,
    first_line: Option<(nat, Seq<char>)>,
    second_line: Option<(nat, Seq<char>)>,
)
    ensures
        ({
            let text = collision_text(
                p,
                raw,
                canon,
                file,
                first,
                second,
                first_line,
                second_line,
            );
            &&& has_text(
                text,
                "file `"@ + shown(relative(file, raw, canon)) + "` claimed by multiple crates"@,
            )
            &&& has_text(text, ": also claimed here (`"@ + second.name + "`)\n"@)
            &&& has_text(
                text,
                claim_span(
                    p.frame,
                    shown(relative(first.manifest, raw, canon)),
                    first_line,
                    "first claim (`"@ + first.name + "`)"@,
                ),
            )
            &&& has_text(
                text,
                claim_span(
                    p.frame,
                    shown(relative(second.manifest, raw, canon)),
                    second_line,
                    ""@,
                ),
            )
            &&& has_text(text, editions_differ(p, first, second))
        }),
{
    let text = collision_text(p, raw, canon, file, first, second, first_line, second_line);
    let head = "file `"@ + shown(relative(file, raw, canon)) + "` claimed by multiple crates"@;
    let a = warning_line(p, head);
    let b = claim_span(
        p.frame,
        shown(relative(first.manifest, raw, canon)),
        first_line,
        "first claim (`"@ + first.name + "`)"@,
    );
    let c = also_claimed(p, second.name);
    let d = claim_span(
        p.frame,
        shown(relative(second.manifest, raw, canon)),
        second_line,
        ""@,
    );
    let e = editions_differ(p, first, second);
    assert(text == a + b + c + d + e + "\n"@);
    lemma_whole(head);
    lemma_lines_hold_the_text(p, head, head);
    lemma_whole(b);
    lemma_whole(d);
    lemma_whole(e);
    let claimed = ": also claimed here (`"@ + second.name + "`)\n"@;
    let none = Seq::<char>::empty();
    assert(c =~= p.note.styled("note"@) + claimed + none);
    a_text_occurs_between_two_others(claimed, p.note.styled("note"@), claimed, none);
    lemma_in_one_of_five(a, b, c, d, e, "\n"@, head);
    lemma_in_one_of_five(a, b, c, d, e, "\n"@, b);
    lemma_in_one_of_five(a, b, c, d, e, "\n"@, claimed);
    lemma_in_one_of_five(a, b, c, d, e, "\n"@, d);
    lemma_in_one_of_five(a, b, c, d, e, "\n"@, e);
}

proof fn lemma_in_one_of_five(
    a: Seq<char>,
    b: Seq<char>,
    c: Seq<char>,
    d: Seq<char>,
    e: Seq<char>,
    end: Seq<char>,
    part: Seq<char>,
)
    requires
        has_text(a, part) || has_text(b, part) || has_text(c, part) || has_text(d, part)
            || has_text(e, part),
    ensures
        has_text(a + b + c + d + e + end, part),
{
    let none = Seq::<char>::empty();
    if has_text(a, part) {
        parts_of_parts_occur(none, a, b, part);
    }
    if has_text(b, part) {
        parts_of_parts_occur(a, b, none, part);
    }
    if has_text(a + b, part) {
        parts_of_parts_occur(none, a + b, c, part);
    }
    if has_text(c, part) {
        parts_of_parts_occur(a + b, c, none, part);
    }
    if has_text(a + b + c, part) {
        parts_of_parts_occur(none, a + b + c, d, part);
    }
    if has_text(d, part) {
        parts_of_parts_occur(a + b + c, d, none, part);
    }
    if has_text(a + b + c + d, part) {
        parts_of_parts_occur(none, a + b + c + d, e, part);
    }
    if has_text(e, part) {
        parts_of_parts_occur(a + b + c + d, e, none, part);
    }
    parts_of_parts_occur(none, a + b + c + d + e, end, part);
}

/// Without styles, the span of a known line is four rows: the place, an empty
/// row, the line without trailing whitespace behind its number, and below it one
/// caret per byte with the label; the margin is as wide as the number.
pub proof fn a_plain_span_shows_the_line(
    frame: Style,
    manifest: Seq<char>,
    n: nat,
    text: Seq<char>,
    label: Seq<char>,
)
    requires
        frame == no_style(),
    ensures
        ({
            let number = decimal(n);
            let margin = Seq::new(number.len(), |i: int| ' ');
            let body = trim_end(text);
            let carets = Seq::new(encode_utf8(body).len(), |i: int| '^');
            let place = " "@ + margin + "-->"@ + " "@ + manifest + ":"@ + number + ":1\n"@;
            let empty_row = " "@ + margin + " "@ + "|"@ + "\n"@;
            let source = " "@ + (number + " |"@) + " "@ + body + "\n"@;
            &&& label.len() == 0 ==> claim_span(frame, manifest, Some((n, text)), label) == place
                + empty_row + source + (" "@ + margin + " "@ + ("| "@ + carets) + "\n"@)
            &&& label.len() > 0 ==> claim_span(frame, manifest, Some((n, text)), label) == place
                + empty_row + source + (" "@ + margin + " "@ + ("| "@ + carets + " "@ + label)
                + "\n"@)
            &&& claim_span(frame, manifest, None, label) == "  "@ + "-->"@ + " "@ + manifest
                + "\n"@
        }),
{
    let number = decimal(n);
    let body = trim_end(text);
    let margin = Seq::new(number.len(), |i: int| ' ');
    let carets = Seq::new(encode_utf8(body).len(), |i: int| '^');
    assert(repeated(' ', number.len()) =~= margin);
    assert(repeated('^', encode_utf8(body).len()) =~= carets);
    plain_style_adds_nothing("-->"@);
    plain_style_adds_nothing("|"@);
    plain_style_adds_nothing(number + " |"@);
    plain_style_adds_nothing(pointer(carets, label));
}

/// The line of a manifest is its number and its text.
pub proof fn a_manifest_line_is_number_and_text(n: usize, text: String)
    ensures
        line_view(Some((n, text))) == Some((n as nat, text@)),
        line_view(None) is None,
{
}

} // verus!
