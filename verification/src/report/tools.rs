//! The tools panel: what was found, where, and what it says of itself.

use crate::report::files::joined;
use crate::text;
use crate::text::{join_strings, push_left, push_text, push_texts};
use crate::tools;
use crate::tools::{Discovery, Registry, ToolId, ToolSource};
use vstd::prelude::*;
use vstd::string::*;

verus! {

/// A line in the column of a tool.
pub open spec fn beside(name: Seq<char>, s: Seq<char>) -> Seq<char> {
    text::left(name, 10) + " "@ + s
}

pub open spec fn source_text(s: ToolSource) -> Seq<char> {
    match s {
        ToolSource::Configured => "configured"@,
        ToolSource::Bundled => "bundled"@,
        ToolSource::Path => "PATH"@,
    }
}

/// The lines of one tool.
pub open spec fn tool_texts(id: ToolId, d: Discovery) -> Seq<Seq<char>> {
    let name = id.name_text();
    match d {
        Discovery::Found(t) => seq![
            beside(name, t.path@ + "  ("@ + source_text(t.source) + ")"@),
            beside(""@, t.version@),
            beside(""@, "sha256 "@ + t.sha256@),
        ],
        Discovery::Unusable { path, reason } => seq![
            beside(name, path@ + " is unusable"@),
            beside(""@, reason@),
        ],
        Discovery::NotFound { searched } => seq![
            beside(
                name,
                "not found — "@ + (if id is Flac {
                    "needed for"@
                } else {
                    "only needed for"@
                }) + " "@ + id.purpose_text(),
            ),
            beside(""@, "looked in "@ + text::join(text::views(searched@), ", "@)),
            beside(
                ""@,
                "point at your own with "@ + id.env_text() + "=/path/to/"@ + name,
            ),
        ],
    }
}

fn line(name: &str, s: &str) -> (l: String)
    ensures
        l@ == beside(name@, s@),
{
    let mut l = String::new();
    push_left(&mut l, name, 10);
    assert(l@ =~= text::left(name@, 10));
    l.append(" ");
    l.append(s);
    l
}

fn tool_lines(id: ToolId, d: &Discovery) -> (r: Vec<String>)
    ensures
        text::views(r@) == tool_texts(id, *d),
{
    let mut r: Vec<String> = Vec::new();
    assert(text::views(r@) =~= Seq::<Seq<char>>::empty());
    match d {
        Discovery::Found(t) => {
            let mut s = joined(&t.path, "  (");
            s.append(t.source.label());
            s.append(")");
            push_text(&mut r, line(id.name(), &s));
            push_text(&mut r, line("", &t.version));
            push_text(&mut r, line("", &joined("sha256 ", &t.sha256)));
        },
        Discovery::Unusable { path, reason } => {
            push_text(&mut r, line(id.name(), &joined(path, " is unusable")));
            push_text(&mut r, line("", reason));
        },
        Discovery::NotFound { searched } => {
            let mut s = "not found — ".to_owned();
            if id.is_required() {
                s.append("needed for");
            } else {
                s.append("only needed for");
            }
            s.append(" ");
            s.append(id.purpose());
            push_text(&mut r, line(id.name(), &s));
            push_text(&mut r, line("", &joined("looked in ", &join_strings(searched, ", "))));
            let mut s = joined("point at your own with ", id.env_var());
            s.append("=/path/to/");
            s.append(id.name());
            push_text(&mut r, line("", &s));
        },
    }
    assert(text::views(r@) =~= tool_texts(id, *d));
    r
}

/// The lines of all tools, in order.
pub open spec fn panel(entries: Seq<(ToolId, Discovery)>) -> Seq<Seq<char>>
    decreases entries.len(),
{
    if entries.len() == 0 {
        Seq::empty()
    } else {
        panel(entries.drop_last()) + tool_texts(entries.last().0, entries.last().1)
    }
}

/// What will not run for want of a tool.
pub open spec fn missing_texts(missing: Seq<ToolId>) -> Seq<Seq<char>> {
    if missing.len() == 0 {
        Seq::empty()
    } else {
        seq![""@] + missing.map_values(
            |id: ToolId|
                id.name_text() + " is required and was not found; "@ + id.purpose_text()
                    + " will not run"@,
        )
    }
}

fn missing_lines(missing: &Vec<ToolId>) -> (r: Vec<String>)
    ensures
        text::views(r@) == missing_texts(missing@),
{
    let mut r: Vec<String> = Vec::new();
    if missing.len() == 0 {
        assert(text::views(r@) =~= missing_texts(missing@));
        return r;
    }
    push_text(&mut r, "".to_owned());
    let ghost all = missing_texts(missing@);
    let mut i: usize = 0;
    assert(text::views(r@) =~= all.take(1));
    while i < missing.len()
        invariant
            i <= missing.len(),
            missing.len() > 0,
            all == missing_texts(missing@),
            text::views(r@) == all.take(i + 1),
        decreases missing.len() - i,
    {
        let mut s = joined(missing[i].name(), " is required and was not found; ");
        s.append(missing[i].purpose());
        s.append(" will not run");
        push_text(&mut r, s);
        assert(text::views(r@) =~= all.take(i + 2));
        i += 1;
    }
    assert(all.take(all.len() as int) =~= all);
    r
}

/// The whole panel, and whether nothing that is required is missing.
pub fn panel_lines(registry: &Registry) -> (r: (Vec<String>, bool))
    ensures
        text::views(r.0@) == panel(registry@) + missing_texts(tools::missing(registry@)),
        r.1 == (tools::missing(registry@).len() == 0),
{
    let entries = registry.entries();
    let mut r: Vec<String> = Vec::new();
    let mut i: usize = 0;
    assert(text::views(r@) =~= panel(entries@.take(0)));
    while i < entries.len()
        invariant
            i <= entries.len(),
            text::views(r@) == panel(entries@.take(i as int)),
        decreases entries.len() - i,
    {
        assert(entries@.take(i + 1).drop_last() =~= entries@.take(i as int));
        assert(entries@.take(i + 1).last() == entries@[i as int]);
        push_texts(&mut r, tool_lines(entries[i].0, &entries[i].1));
        i += 1;
    }
    assert(entries@.take(entries@.len() as int) =~= entries@);
    let missing = registry.missing_required();
    push_texts(&mut r, missing_lines(&missing));
    (r, missing.len() == 0)
}

} // verus!
