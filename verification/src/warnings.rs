//! Advisory diagnostics, rustc-flavored. None of them affects formatting; each
//! function returns the text to print, which is empty where there is nothing
//! to say.

use crate::bytes::shown;
use crate::claims::{ClaimSite, Collision, Site};
use crate::discover::{relative, Governed, Governee, SeenEdition, WsRoots};
use crate::manifest::{extract_toml_edition, first_quoted};
use crate::number::{decimal, push_decimal};
use crate::order::{sorted, stable_sort};
use crate::path::{parent, same_path};
use crate::style::{Palette, Style};
use crate::text::{
    chars_of, contains_text, has_text, join_texts, joined, lines, text_eq, trim, trim_end, trim_right,
    trim_start, views,
};
use vstd::prelude::*;
use vstd::utf8::encode_utf8;

verus! {

/// A `warning:` line.
pub open spec fn warning_line(p: Palette, rest: Seq<char>) -> Seq<char> {
    p.warning.styled("warning"@) + ": "@ + rest + "\n"@
}

/// A `note:` line below a warning.
pub open spec fn note_line(p: Palette, rest: Seq<char>) -> Seq<char> {
    "   "@ + p.note.styled("note"@) + ": "@ + rest + "\n"@
}

/// A `help:` line below a warning.
pub open spec fn help_line(p: Palette, rest: Seq<char>) -> Seq<char> {
    "   "@ + p.help.styled("help"@) + ": "@ + rest + "\n"@
}

fn push_warning(out: &mut String, p: &Palette, rest: &str)
    ensures
        final(out)@ == old(out)@ + warning_line(*p, rest@),
{
    p.warning.push(out, "warning");
    out.append(": ");
    out.append(rest);
    out.append("\n");
    assert(out@ =~= old(out)@ + warning_line(*p, rest@));
}

fn push_note(out: &mut String, p: &Palette, rest: &str)
    ensures
        final(out)@ == old(out)@ + note_line(*p, rest@),
{
    out.append("   ");
    p.note.push(out, "note");
    out.append(": ");
    out.append(rest);
    out.append("\n");
    assert(out@ =~= old(out)@ + note_line(*p, rest@));
}

fn push_help(out: &mut String, p: &Palette, rest: &str)
    ensures
        final(out)@ == old(out)@ + help_line(*p, rest@),
{
    out.append("   ");
    p.help.push(out, "help");
    out.append(": ");
    out.append(rest);
    out.append("\n");
    assert(out@ =~= old(out)@ + help_line(*p, rest@));
}

/// `n` times the character `c`.
pub open spec fn repeated(c: char, n: nat) -> Seq<char> {
    Seq::new(n, |i: int| c)
}

fn repeat_char(c: char, n: usize) -> (out: String)
    ensures
        out@ == repeated(c, n as nat),
{
    let mut out = String::new();
    let mut i: usize = 0;
    assert(out@ =~= repeated(c, 0));
    while i < n
        invariant
            i <= n,
            out@ == repeated(c, i as nat),
        decreases n - i,
    {
        out.push(c);
        i += 1;
        assert(out@ =~= repeated(c, i as nat));
    }
    out
}

/// The row of a span that says where it is.
pub open spec fn span_place(
    frame: Style,
    blank: Seq<char>,
    manifest: Seq<char>,
    number: Seq<char>,
) -> Seq<char> {
    " "@ + blank + frame.styled("-->"@) + " "@ + manifest + ":"@ + number + ":1\n"@
}

/// The row of a span that holds the source line.
pub open spec fn span_source(frame: Style, number: Seq<char>, body: Seq<char>) -> Seq<char> {
    " "@ + frame.styled(number + " |"@) + " "@ + body + "\n"@
}

/// A row of a span without a source line: `mark` in the frame.
pub open spec fn span_row(frame: Style, blank: Seq<char>, mark: Seq<char>) -> Seq<char> {
    " "@ + blank + " "@ + frame.styled(mark) + "\n"@
}

/// A row of carets with a label.
pub open spec fn pointer(carets: Seq<char>, label: Seq<char>) -> Seq<char> {
    if label.len() == 0 {
        "| "@ + carets
    } else {
        "| "@ + carets + " "@ + label
    }
}

/// The span of a claim: where in the manifest the target stands, its source
/// line, and a row of carets (one per byte) with a label; where the line is not
/// known, only the manifest.
pub open spec fn claim_span(
    frame: Style,
    manifest: Seq<char>,
    line: Option<(nat, Seq<char>)>,
    label: Seq<char>,
) -> Seq<char> {
    match line {
        Some((n, text)) => {
            let number = decimal(n);
            let blank = repeated(' ', number.len());
            let body = trim_end(text);
            let carets = repeated('^', encode_utf8(body).len());
            span_place(frame, blank, manifest, number) + span_row(frame, blank, "|"@) + span_source(
                frame,
                number,
                body,
            ) + span_row(frame, blank, pointer(carets, label))
        },
        None => "  "@ + frame.styled("-->"@) + " "@ + manifest + "\n"@,
    }
}

/// What an optional line of a manifest holds.
pub open spec fn line_view(line: Option<(usize, String)>) -> Option<(nat, Seq<char>)> {
    match line {
        Some((n, text)) => Some((n as nat, text@)),
        None => None,
    }
}

fn push_place(out: &mut String, frame: Style, blank: &str, manifest: &str, number: &str)
    ensures
        final(out)@ == old(out)@ + span_place(frame, blank@, manifest@, number@),
{
    out.append(" ");
    out.append(blank);
    frame.push(out, "-->");
    out.append(" ");
    out.append(manifest);
    out.append(":");
    out.append(number);
    out.append(":1\n");
    assert(out@ =~= old(out)@ + span_place(frame, blank@, manifest@, number@));
}

fn push_source(out: &mut String, frame: Style, number: &str, body: &str)
    ensures
        final(out)@ == old(out)@ + span_source(frame, number@, body@),
{
    let mut gutter = String::new();
    gutter.append(number);
    gutter.append(" |");
    assert(gutter@ =~= number@ + " |"@);
    out.append(" ");
    frame.push(out, gutter.as_str());
    out.append(" ");
    out.append(body);
    out.append("\n");
    assert(out@ =~= old(out)@ + span_source(frame, number@, body@));
}

fn push_row(out: &mut String, frame: Style, blank: &str, mark: &str)
    ensures
        final(out)@ == old(out)@ + span_row(frame, blank@, mark@),
{
    out.append(" ");
    out.append(blank);
    out.append(" ");
    frame.push(out, mark);
    out.append("\n");
    assert(out@ =~= old(out)@ + span_row(frame, blank@, mark@));
}

fn pointer_for(carets: &str, label: &str) -> (out: String)
    ensures
        out@ == pointer(carets@, label@),
{
    let mut out = String::new();
    out.append("| ");
    out.append(carets);
    if chars_of(label).len() > 0 {
        out.append(" ");
        out.append(label);
    }
    assert(out@ =~= pointer(carets@, label@));
    out
}

/// Appends the span of a claim.
fn render_claim_span(
    out: &mut String,
    frame: Style,
    manifest: &str,
    line: &Option<(usize, String)>,
    label: &str,
)
    ensures
        final(out)@ == old(out)@ + claim_span(frame, manifest@, line_view(*line), label@),
{
    match line {
        Some((n, text)) => {
            let mut number = String::new();
            push_decimal(&mut number, *n as u128);
            assert(number@ =~= decimal(*n as nat));
            let blank = repeat_char(' ', chars_of(number.as_str()).len());
            let body = trim_right(text.as_str());
            let carets = repeat_char('^', body.as_str().as_bytes().len());
            let mark = pointer_for(carets.as_str(), label);
            push_place(out, frame, blank.as_str(), manifest, number.as_str());
            push_row(out, frame, blank.as_str(), "|");
            push_source(out, frame, number.as_str(), body.as_str());
            push_row(out, frame, blank.as_str(), mark.as_str());
            assert(out@ =~= old(out)@ + claim_span(frame, manifest@, line_view(*line), label@));
        },
        None => {
            out.append("  ");
            frame.push(out, "-->");
            out.append(" ");
            out.append(manifest);
            out.append("\n");
            assert(out@ =~= old(out)@ + claim_span(frame, manifest@, None, label@));
        },
    }
}

/// The line that introduces the second claim.
pub open spec fn also_claimed(p: Palette, name: Seq<char>) -> Seq<char> {
    p.note.styled("note"@) + ": also claimed here (`"@ + name + "`)\n"@
}

fn push_also_claimed(out: &mut String, p: &Palette, name: &str)
    ensures
        final(out)@ == old(out)@ + also_claimed(*p, name@),
{
    p.note.push(out, "note");
    out.append(": also claimed here (`");
    out.append(name);
    out.append("`)\n");
    assert(out@ =~= old(out)@ + also_claimed(*p, name@));
}

/// The line about the editions of two claimants, where they differ.
pub open spec fn editions_differ(p: Palette, first: Site, second: Site) -> Seq<char> {
    if first.edition != second.edition {
        "   "@ + p.frame.styled("="@) + " "@ + p.note.styled("note"@)
            + ": editions differ — using `"@ + first.name + "`'s "@ + first.edition.year()
            + " over `"@ + second.name + "`'s "@ + second.edition.year() + "\n"@
    } else {
        Seq::empty()
    }
}

fn push_editions_differ(out: &mut String, p: &Palette, first: &ClaimSite, second: &ClaimSite)
    ensures
        final(out)@ == old(out)@ + editions_differ(*p, first@, second@),
{
    if first.edition != second.edition {
        out.append("   ");
        p.frame.push(out, "=");
        out.append(" ");
        p.note.push(out, "note");
        out.append(": editions differ — using `");
        out.append(first.name.as_str());
        out.append("`'s ");
        out.append(first.edition.as_str());
        out.append(" over `");
        out.append(second.name.as_str());
        out.append("`'s ");
        out.append(second.edition.as_str());
        out.append("\n");
    }
    assert(out@ =~= old(out)@ + editions_differ(*p, first@, second@));
}

/// The warning about a file that two crates claim, given the line of each
/// crate's manifest that declares it, where that is known.
pub open spec fn collision_text(
    p: Palette,
    raw: Seq<u8>,
    canon: Seq<u8>,
    file: Seq<u8>,
    first: Site,
    second: Site,
    first_line: Option<(nat, Seq<char>)>,
    second_line: Option<(nat, Seq<char>)>,
) -> Seq<char> {
    warning_line(p, "file `"@ + shown(relative(file, raw, canon)) + "` claimed by multiple crates"@)
        + claim_span(
        p.frame,
        shown(relative(first.manifest, raw, canon)),
        first_line,
        "first claim (`"@ + first.name + "`)"@,
    ) + also_claimed(p, second.name) + claim_span(
        p.frame,
        shown(relative(second.manifest, raw, canon)),
        second_line,
        ""@,
    ) + editions_differ(p, first, second) + "\n"@
}

fn between(before: &str, t: &str, after: &str) -> (out: String)
    ensures
        out@ == before@ + t@ + after@,
{
    let mut out = String::new();
    out.append(before);
    out.append(t);
    out.append(after);
    assert(out@ =~= before@ + t@ + after@);
    out
}

/// The warning about a file that two crates claim.
pub fn claim_collision_warning(
    roots: &WsRoots,
    p: &Palette,
    collision: &Collision,
    first_line: &Option<(usize, String)>,
    second_line: &Option<(usize, String)>,
) -> (out: String)
    ensures
        out@ == collision_text(
            *p,
            roots.raw_path(),
            roots.canon_path(),
            collision.file@,
            collision.first@,
            collision.second@,
            line_view(*first_line),
            line_view(*second_line),
        ),
{
    let first = &collision.first;
    let second = &collision.second;
    let file = roots.rel(&collision.file).display();
    let first_manifest = roots.rel(&first.manifest_path).display();
    let second_manifest = roots.rel(&second.manifest_path).display();
    let head = between("file `", file.as_str(), "` claimed by multiple crates");
    let label = between("first claim (`", first.name.as_str(), "`)");
    let mut out = String::new();
    push_warning(&mut out, p, head.as_str());
    assert(out@ =~= warning_line(*p, head@));
    render_claim_span(&mut out, p.frame, first_manifest.as_str(), first_line, label.as_str());
    push_also_claimed(&mut out, p, second.name.as_str());
    render_claim_span(&mut out, p.frame, second_manifest.as_str(), second_line, "");
    push_editions_differ(&mut out, p, first, second);
    out.append("\n");
    out
}

/// An edition with a crate that uses it.
pub open spec fn edition_example(s: SeenEdition) -> Seq<char> {
    s.edition.year() + " (e.g. `"@ + s.name@ + "`)"@
}

/// The warning about a workspace of several editions.
pub open spec fn multi_edition_text(p: Palette, seen: Seq<SeenEdition>) -> Seq<char> {
    if seen.len() > 1 {
        warning_line(p, "workspace mixes "@ + decimal(seen.len()) + " editions"@) + note_line(
            p,
            joined(seen.map_values(|s: SeenEdition| edition_example(s)), ", "@),
        ) + note_line(
            p,
            "rustfmt parses each crate per its own edition, so reserved-keyword identifiers may format differently across the boundary"@,
        ) + "\n"@
    } else {
        ""@
    }
}

/// The warning about a workspace of several editions, given those in use.
pub fn multi_edition_warning(p: &Palette, seen: &Vec<SeenEdition>) -> (out: String)
    ensures
        out@ == multi_edition_text(*p, seen@),
{
    let mut out = String::new();
    if seen.len() <= 1 {
        proof {
            reveal_strlit("");
        }
        assert(out@ =~= ""@);
        return out;
    }
    let ghost examples = seen@.map_values(|s: SeenEdition| edition_example(s));
    let mut parts: Vec<String> = Vec::new();
    let mut i: usize = 0;
    while i < seen.len()
        invariant
            i <= seen@.len(),
            examples == seen@.map_values(|s: SeenEdition| edition_example(s)),
            views(parts@) == examples.take(i as int),
        decreases seen@.len() - i,
    {
        let ghost before = parts@;
        let mut part = String::new();
        part.append(seen[i].edition.as_str());
        part.append(" (e.g. `");
        part.append(seen[i].name.as_str());
        part.append("`)");
        assert(part@ =~= edition_example(seen@[i as int]));
        parts.push(part);
        assert(views(parts@) =~= views(before).push(examples[i as int]));
        assert(examples.take(i + 1) =~= examples.take(i as int).push(examples[i as int]));
        i += 1;
    }
    assert(examples.take(i as int) =~= examples);
    let mut head = String::new();
    head.append("workspace mixes ");
    push_decimal(&mut head, seen.len() as u128);
    head.append(" editions");
    assert(head@ =~= "workspace mixes "@ + decimal(seen@.len()) + " editions"@);
    push_warning(&mut out, p, head.as_str());
    push_note(&mut out, p, join_texts(&parts, ", ").as_str());
    push_note(
        &mut out,
        p,
        "rustfmt parses each crate per its own edition, so reserved-keyword identifiers may format differently across the boundary",
    );
    out.append("\n");
    assert(out@ =~= multi_edition_text(*p, seen@));
    out
}

/// A name between backticks.
pub open spec fn quoted(name: Seq<char>) -> Seq<char> {
    "`"@ + name + "`"@
}

/// The names in alphabetical order, each between backticks, with commas.
pub open spec fn name_list(names: Seq<String>) -> Seq<char> {
    joined(sorted(names).map_values(|n: String| quoted(n@)), ", "@)
}

fn list_names(names: Vec<String>) -> (out: String)
    ensures
        out@ == name_list(names@),
{
    let ordered = stable_sort(names);
    let ghost want = ordered@.map_values(|n: String| quoted(n@));
    let mut parts: Vec<String> = Vec::new();
    let mut i: usize = 0;
    while i < ordered.len()
        invariant
            i <= ordered@.len(),
            want == ordered@.map_values(|n: String| quoted(n@)),
            views(parts@) == want.take(i as int),
        decreases ordered@.len() - i,
    {
        let ghost before = parts@;
        parts.push(between("`", ordered[i].as_str(), "`"));
        assert(views(parts@) =~= views(before).push(want[i as int]));
        assert(want.take(i + 1) =~= want.take(i as int).push(want[i as int]));
        i += 1;
    }
    assert(want.take(i as int) =~= want);
    join_texts(&parts, ", ")
}

/// The names of the crates that a configuration governs.
pub open spec fn names_of(crates: Seq<Governee>) -> Seq<String> {
    crates.map_values(|g: Governee| g.name)
}

fn collect_names(crates: &Vec<Governee>) -> (out: Vec<String>)
    ensures
        out@ == names_of(crates@),
{
    let mut out: Vec<String> = Vec::new();
    let mut i: usize = 0;
    while i < crates.len()
        invariant
            i <= crates@.len(),
            out@ == names_of(crates@).take(i as int),
        decreases crates@.len() - i,
    {
        out.push(crates[i].name.clone());
        assert(names_of(crates@).take(i + 1) =~= names_of(crates@).take(i as int).push(
            crates@[i as int].name,
        ));
        i += 1;
    }
    assert(names_of(crates@).take(i as int) =~= names_of(crates@));
    out
}

/// Whether a configuration stands elsewhere than in the workspace root.
pub open spec fn shadows(g: Governed, raw: Seq<u8>) -> bool {
    match parent(g.config@) {
        Some(dir) => !same_path(dir, raw),
        None => true,
    }
}

/// One line per configuration that shadows the workspace's.
pub open spec fn shadow_lines(
    p: Palette,
    raw: Seq<u8>,
    canon: Seq<u8>,
    governed: Seq<Governed>,
) -> Seq<char>
    decreases governed.len(),
{
    if governed.len() == 0 {
        Seq::empty()
    } else {
        let front = shadow_lines(p, raw, canon, governed.drop_last());
        let g = governed.last();
        if shadows(g, raw) {
            front + note_line(
                p,
                "`"@ + shown(relative(g.config@, raw, canon)) + "` governs "@ + name_list(
                    names_of(g.crates@),
                ),
            )
        } else {
            front
        }
    }
}

/// How many of the configurations shadow the workspace's.
pub open spec fn shadow_count(raw: Seq<u8>, governed: Seq<Governed>) -> nat
    decreases governed.len(),
{
    if governed.len() == 0 {
        0
    } else {
        shadow_count(raw, governed.drop_last()) + if shadows(governed.last(), raw) {
            1nat
        } else {
            0nat
        }
    }
}

/// The warning about configurations elsewhere than in the workspace root.
pub open spec fn shadow_text(
    p: Palette,
    raw: Seq<u8>,
    canon: Seq<u8>,
    governed: Seq<Governed>,
) -> Seq<char> {
    let n = shadow_count(raw, governed);
    if n == 0 {
        ""@
    } else {
        warning_line(
            p,
            decimal(n) + " nested rustfmt.toml file"@ + (if n == 1 {
                ""@
            } else {
                "s"@
            }) + " shadow"@ + (if n == 1 {
                "s"@
            } else {
                ""@
            }) + " the workspace config"@,
        ) + shadow_lines(p, raw, canon, governed) + note_line(
            p,
            "rustfmt resolves config per file (walking up from each path), so these crates ignore the workspace-root rustfmt.toml"@,
        ) + "\n"@
    }
}

/// The warning about configurations elsewhere than in the workspace root: each
/// silently overrides the workspace's for the crates that it governs.
pub fn shadow_config_warning(roots: &WsRoots, p: &Palette, governed: &Vec<Governed>) -> (out: String)
    ensures
        out@ == shadow_text(*p, roots.raw_path(), roots.canon_path(), governed@),
{
    let ghost raw = roots.raw_path();
    let ghost canon = roots.canon_path();
    let mut rows = String::new();
    let mut n: usize = 0;
    let mut i: usize = 0;
    assert(governed@.take(0) =~= Seq::<Governed>::empty());
    assert(rows@ =~= Seq::<char>::empty());
    while i < governed.len()
        invariant
            n <= i <= governed@.len(),
            raw == roots.raw_path(),
            canon == roots.canon_path(),
            rows@ == shadow_lines(*p, raw, canon, governed@.take(i as int)),
            n == shadow_count(raw, governed@.take(i as int)),
        decreases governed@.len() - i,
    {
        assert(governed@.take(i + 1).drop_last() =~= governed@.take(i as int));
        let g = &governed[i];
        let shadowing = match g.config.parent() {
            Some(dir) => !dir.same(roots.raw()),
            None => true,
        };
        if shadowing {
            let mut row = String::new();
            row.append("`");
            row.append(roots.rel(&g.config).display().as_str());
            row.append("` governs ");
            row.append(list_names(collect_names(&g.crates)).as_str());
            assert(row@ =~= "`"@ + shown(relative(g.config@, raw, canon)) + "` governs "@ + name_list(
                names_of(g.crates@),
            ));
            push_note(&mut rows, p, row.as_str());
            n += 1;
        }
        i += 1;
    }
    assert(governed@.take(i as int) =~= governed@);
    let mut out = String::new();
    if n == 0 {
        proof {
            reveal_strlit("");
        }
        assert(out@ =~= ""@);
        return out;
    }
    let mut head = String::new();
    push_decimal(&mut head, n as u128);
    head.append(" nested rustfmt.toml file");
    head.append(
        if n == 1 {
            ""
        } else {
            "s"
        },
    );
    head.append(" shadow");
    head.append(
        if n == 1 {
            "s"
        } else {
            ""
        },
    );
    head.append(" the workspace config");
    let ghost want = decimal(n as nat) + " nested rustfmt.toml file"@ + (if n == 1 {
        ""@
    } else {
        "s"@
    }) + " shadow"@ + (if n == 1 {
        "s"@
    } else {
        ""@
    }) + " the workspace config"@;
    assert(head@ =~= want);
    push_warning(&mut out, p, head.as_str());
    out.append(rows.as_str());
    push_note(
        &mut out,
        p,
        "rustfmt resolves config per file (walking up from each path), so these crates ignore the workspace-root rustfmt.toml",
    );
    out.append("\n");
    assert(out@ =~= shadow_text(*p, raw, canon, governed@));
    out
}

/// The crates whose edition is not the one that a configuration sets.
pub open spec fn mismatched(crates: Seq<Governee>, edition: Seq<char>) -> Seq<Governee>
    decreases crates.len(),
{
    if crates.len() == 0 {
        crates
    } else {
        let front = mismatched(crates.drop_last(), edition);
        if crates.last().edition.year() != edition {
            front.push(crates.last())
        } else {
            front
        }
    }
}

/// The warning about one configuration that sets an edition which a crate that
/// it governs does not have. The first such crate by name stands as example.
pub open spec fn config_edition_text(
    p: Palette,
    config: Seq<char>,
    crates: Seq<Governee>,
    content: Option<String>,
) -> Seq<char> {
    match content {
        None => Seq::empty(),
        Some(c) => match first_quoted(lines(c@), "edition"@) {
            None => Seq::empty(),
            Some(edition) => {
                let others = sorted(mismatched(crates, edition));
                if others.len() == 0 {
                    Seq::empty()
                } else {
                    warning_line(
                        p,
                        "`"@ + config + "` sets `edition = \""@ + edition
                            + "\"`, which cargo ff overrides"@,
                    ) + note_line(
                        p,
                        "cargo ff passes `--edition` from each crate's Cargo.toml (e.g. `"@
                            + others[0].name@ + "` is edition "@ + others[0].edition.year() + ")"@,
                    ) + note_line(
                        p,
                        "the rustfmt.toml `edition` still applies to a bare `rustfmt` run, so output can diverge from cargo ff / cargo fmt"@,
                    ) + "\n"@
                }
            },
        },
    }
}

/// The warnings about all configurations.
pub open spec fn config_editions_text(
    p: Palette,
    raw: Seq<u8>,
    canon: Seq<u8>,
    governed: Seq<Governed>,
    contents: Seq<Option<String>>,
) -> Seq<char>
    decreases governed.len(),
{
    if governed.len() == 0 {
        Seq::empty()
    } else {
        let n = governed.len() - 1;
        config_editions_text(p, raw, canon, governed.take(n), contents) + config_edition_text(
            p,
            shown(relative(governed[n].config@, raw, canon)),
            governed[n].crates@,
            contents[n],
        )
    }
}

fn find_mismatched(crates: &Vec<Governee>, edition: &str) -> (out: Vec<Governee>)
    ensures
        out@ == mismatched(crates@, edition@),
{
    let mut out: Vec<Governee> = Vec::new();
    let mut i: usize = 0;
    assert(crates@.take(0) =~= Seq::<Governee>::empty());
    while i < crates.len()
        invariant
            i <= crates@.len(),
            out@ == mismatched(crates@.take(i as int), edition@),
        decreases crates@.len() - i,
    {
        assert(crates@.take(i + 1).drop_last() =~= crates@.take(i as int));
        if !text_eq(crates[i].edition.as_str(), edition) {
            out.push(Governee { name: crates[i].name.clone(), edition: crates[i].edition });
        }
        i += 1;
    }
    assert(crates@.take(i as int) =~= crates@);
    out
}

fn push_config_edition(
    out: &mut String,
    p: &Palette,
    config: &str,
    crates: &Vec<Governee>,
    content: &Option<String>,
)
    ensures
        final(out)@ == old(out)@ + config_edition_text(*p, config@, crates@, *content),
{
    let ghost want = config_edition_text(*p, config@, crates@, *content);
    let Some(text) = content else {
        assert(out@ =~= old(out)@ + want);
        return ;
    };
    let Some(edition) = extract_toml_edition(text.as_str()) else {
        assert(out@ =~= old(out)@ + want);
        return ;
    };
    let others = stable_sort(find_mismatched(crates, edition.as_str()));
    if others.len() == 0 {
        assert(out@ =~= old(out)@ + want);
        return ;
    }
    let example = &others[0];
    let mut head = String::new();
    head.append("`");
    head.append(config);
    head.append("` sets `edition = \"");
    head.append(edition.as_str());
    head.append("\"`, which cargo ff overrides");
    assert(head@ =~= "`"@ + config@ + "` sets `edition = \""@ + edition@
        + "\"`, which cargo ff overrides"@);
    let mut note = String::new();
    note.append("cargo ff passes `--edition` from each crate's Cargo.toml (e.g. `");
    note.append(example.name.as_str());
    note.append("` is edition ");
    note.append(example.edition.as_str());
    note.append(")");
    assert(note@ =~= "cargo ff passes `--edition` from each crate's Cargo.toml (e.g. `"@
        + example.name@ + "` is edition "@ + example.edition.year() + ")"@);
    push_warning(out, p, head.as_str());
    push_note(out, p, note.as_str());
    push_note(
        out,
        p,
        "the rustfmt.toml `edition` still applies to a bare `rustfmt` run, so output can diverge from cargo ff / cargo fmt",
    );
    out.append("\n");
    assert(out@ =~= old(out)@ + want);
}

/// The warnings about configurations whose edition differs from that of a crate
/// which they govern, given the content of each (none where it could not be
/// read). `--edition` always wins over such a setting.
pub fn config_edition_warning(
    roots: &WsRoots,
    p: &Palette,
    governed: &Vec<Governed>,
    contents: &Vec<Option<String>>,
) -> (out: String)
    requires
        contents@.len() == governed@.len(),
    ensures
        out@ == config_editions_text(
            *p,
            roots.raw_path(),
            roots.canon_path(),
            governed@,
            contents@,
        ),
{
    let mut out = String::new();
    let mut i: usize = 0;
    assert(out@ =~= Seq::<char>::empty());
    while i < governed.len()
        invariant
            i <= governed@.len(),
            contents@.len() == governed@.len(),
            out@ == config_editions_text(
                *p,
                roots.raw_path(),
                roots.canon_path(),
                governed@.take(i as int),
                contents@,
            ),
        decreases governed@.len() - i,
    {
        assert(governed@.take(i + 1).take(i as int) =~= governed@.take(i as int));
        push_config_edition(
            &mut out,
            p,
            roots.rel(&governed[i].config).display().as_str(),
            &governed[i].crates,
            &contents[i],
        );
        i += 1;
    }
    assert(governed@.take(i as int) =~= governed@);
    out
}

/// The warning about crates that default to edition 2015.
pub open spec fn implicit_edition_text(p: Palette, names: Seq<String>) -> Seq<char> {
    let n = names.len();
    if n == 0 {
        ""@
    } else {
        warning_line(
            p,
            decimal(n) + " crate"@ + (if n == 1 {
                ""@
            } else {
                "s"@
            }) + " default"@ + (if n == 1 {
                "s"@
            } else {
                ""@
            }) + " to edition 2015 (no `edition` in Cargo.toml)"@,
        ) + note_line(p, name_list(names)) + help_line(
            p,
            "add `edition = \"2021\"` (or another) to each Cargo.toml — 2015 formats differently from later editions"@,
        ) + "\n"@
    }
}

/// The warning about crates that default to edition 2015.
pub fn implicit_edition_warning(p: &Palette, names: Vec<String>) -> (out: String)
    ensures
        out@ == implicit_edition_text(*p, names@),
{
    let mut out = String::new();
    let n = names.len();
    if n == 0 {
        proof {
            reveal_strlit("");
        }
        assert(out@ =~= ""@);
        return out;
    }
    let mut head = String::new();
    push_decimal(&mut head, n as u128);
    head.append(" crate");
    head.append(
        if n == 1 {
            ""
        } else {
            "s"
        },
    );
    head.append(" default");
    head.append(
        if n == 1 {
            "s"
        } else {
            ""
        },
    );
    head.append(" to edition 2015 (no `edition` in Cargo.toml)");
    let ghost want = decimal(n as nat) + " crate"@ + (if n == 1 {
        ""@
    } else {
        "s"@
    }) + " default"@ + (if n == 1 {
        "s"@
    } else {
        ""@
    }) + " to edition 2015 (no `edition` in Cargo.toml)"@;
    assert(head@ =~= want);
    push_warning(&mut out, p, head.as_str());
    let listed = list_names(names);
    push_note(&mut out, p, listed.as_str());
    push_help(
        &mut out,
        p,
        "add `edition = \"2021\"` (or another) to each Cargo.toml — 2015 formats differently from later editions",
    );
    out.append("\n");
    assert(out@ =~= implicit_edition_text(*p, names@));
    out
}

/// The warning about a rustfmt that is not a nightly, given what
/// `rustfmt --version` printed.
pub open spec fn stable_rustfmt_text(p: Palette, version: Seq<char>) -> Seq<char> {
    if has_text(version, "nightly"@) {
        ""@
    } else {
        warning_line(p, "rustfmt on PATH is the stable channel"@) + note_line(
            p,
            quoted(trim_end(trim_start(version))),
        ) + note_line(p, "unstable rustfmt.toml options will be silently ignored"@) + help_line(
            p,
            "run via `cargo +nightly ff` for parity with `cargo +nightly fmt`"@,
        ) + "\n"@
    }
}

/// The warning about a rustfmt that is not a nightly: it silently drops
/// unstable options, so output diverges from `cargo +nightly fmt`.
pub fn stable_rustfmt_warning(p: &Palette, version: &str) -> (out: String)
    ensures
        out@ == stable_rustfmt_text(*p, version@),
{
    let mut out = String::new();
    if contains_text(version, "nightly") {
        proof {
            reveal_strlit("");
        }
        assert(out@ =~= ""@);
        return out;
    }
    let note = between("`", trim(version).as_str(), "`");
    push_warning(&mut out, p, "rustfmt on PATH is the stable channel");
    push_note(&mut out, p, note.as_str());
    push_note(&mut out, p, "unstable rustfmt.toml options will be silently ignored");
    push_help(&mut out, p, "run via `cargo +nightly ff` for parity with `cargo +nightly fmt`");
    out.append("\n");
    assert(out@ =~= stable_rustfmt_text(*p, version@));
    out
}

} // verus!
