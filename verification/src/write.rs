//! The text of the generated document.
//!
//! Every function appends to a text buffer and states exactly what it
//! appends. Writing the buffer to a file is left to the caller.

use crate::args::{Args, OutputFormat};
use crate::entry::{entry_views, Entry, EntryKind, EntryView};
use crate::text::texts;
use vstd::prelude::*;
use vstd::string::*;

verus! {

/// The lines of `lines`, each followed by a line break.
pub open spec fn lines_text(lines: Seq<Seq<char>>) -> Seq<char>
    decreases lines.len(),
{
    if lines.len() == 0 {
        Seq::<char>::empty()
    } else {
        lines_text(lines.drop_last()) + lines.last() + "\n"@
    }
}

/// The lines that open a document of the given dialect.
pub open spec fn header_lines(format: OutputFormat) -> Seq<Seq<char>> {
    match format {
        OutputFormat::Text => seq![
            "Repository Documentation"@,
            "This document provides an overview of the repository's structure and contents."@,
            "The 'Directory/File Tree' section displays the repository's hierarchy."@,
            "The 'File Content' section details the contents of each file."@,
            "File contents are marked with '[File Begins]' and '[File Ends]' tags.\n"@,
        ],
        OutputFormat::Markdown => seq![
            "# Repository Documentation"@,
            "This document provides an overview of the repository's structure and contents.\n"@,
            "## Directory/File Tree"@,
            "The following section displays the repository's hierarchy.\n"@,
            "## File Content"@,
            "This section details the contents of each file.\n"@,
        ],
        OutputFormat::HTML => seq![
            "<!DOCTYPE html>"@,
            "<html lang=\"en\">"@,
            "<head>"@,
            "    <meta charset=\"UTF-8\">"@,
            "    <meta name=\"viewport\" content=\"width=device-width, initial-scale=1.0\">"@,
            "    <title>Repository Documentation</title>"@,
            "</head>"@,
            "<body>"@,
            "    <h1>Repository Documentation</h1>"@,
            "    <p>This document provides an overview of the repository's structure and contents.</p>"@,
            "    <h2>Directory/File Tree</h2>"@,
            "    <p>The following section displays the repository's hierarchy.</p>"@,
            "    <h2>File Content</h2>"@,
            "    <p>This section details the contents of each file.</p>"@,
        ],
    }
}

/// The lines that close a document of the given dialect.
pub open spec fn footer_lines(format: OutputFormat) -> Seq<Seq<char>> {
    match format {
        OutputFormat::HTML => seq!["</body>\n</html>"@],
        _ => Seq::empty(),
    }
}

/// Four spaces for each level.
pub open spec fn indent(depth: nat) -> Seq<char>
    decreases depth,
{
    if depth == 0 {
        Seq::<char>::empty()
    } else {
        indent((depth - 1) as nat) + "    "@
    }
}

/// The line of the tree for one entry: its indentation, a branch glyph below
/// the root, and its name.
pub open spec fn tree_line(entry: EntryView) -> Seq<char> {
    if entry.depth > 0 {
        indent(entry.depth) + "\u{2514}\u{2500}\u{2500} "@ + entry.name
    } else {
        indent(entry.depth) + entry.name
    }
}

/// The lines of the tree for a list of entries.
pub open spec fn tree_lines(entries: Seq<EntryView>) -> Seq<Seq<char>> {
    Seq::new(entries.len(), |i: int| tree_line(entries[i]))
}

/// The section of the document for one file: its lines between a begin
/// marker and an end marker that carry its path relative to the root.
pub open spec fn file_section(entry: EntryView, lines: Seq<Seq<char>>) -> Seq<char> {
    "[File Begins] "@ + entry.rel_path + "\n"@ + lines_text(lines) + "[File Ends] "@
        + entry.rel_path + "\n"@
}

/// The text of one entry in the content part: the section of a file whose
/// lines were read, nothing for any other entry.
pub open spec fn entry_section(entry: EntryView, lines: Option<Seq<Seq<char>>>) -> Seq<char> {
    if entry.kind == EntryKind::File && lines is Some {
        file_section(entry, lines->0)
    } else {
        Seq::<char>::empty()
    }
}

/// The lines read for the entry at position `i`, if any were.
pub open spec fn lines_at(contents: Seq<Option<Vec<String>>>, i: int) -> Option<Seq<Seq<char>>> {
    if 0 <= i < contents.len() {
        match contents[i] {
            Some(lines) => Some(texts(lines@)),
            None => None,
        }
    } else {
        None
    }
}

/// The content part for the first `n` entries.
pub open spec fn contents_text(
    entries: Seq<EntryView>,
    contents: Seq<Option<Vec<String>>>,
    n: nat,
) -> Seq<char>
    decreases n,
{
    if n == 0 || n > entries.len() {
        Seq::<char>::empty()
    } else {
        contents_text(entries, contents, (n - 1) as nat) + entry_section(
            entries[n - 1],
            lines_at(contents, n - 1),
        )
    }
}

/// The part of the document that describes a repository: the tree between
/// its markers, then the contents between theirs.
pub open spec fn repository_text(
    entries: Seq<EntryView>,
    contents: Seq<Option<Vec<String>>>,
) -> Seq<char> {
    "Directory/File Tree Begins -->\n\n"@ + lines_text(tree_lines(entries))
        + "\n<-- Directory/File Tree Ends\n"@ + "\nFile Content Begins -->\n\n"@ + contents_text(
        entries,
        contents,
        entries.len(),
    ) + "\n<-- File Content Ends\n\n"@
}

/// Appends one line and a line break.
fn push_line(out: &mut String, line: &str)
    ensures
        final(out)@ == old(out)@ + line@ + "\n"@,
{
    out.append(line);
    out.append("\n");
}

/// Appends each of `lines` with a line break.
fn push_lines(out: &mut String, lines: &Vec<&str>)
    ensures
        final(out)@ == old(out)@ + lines_text(Seq::new(lines@.len(), |i: int| lines@[i]@)),
{
    let ghost all = Seq::new(lines@.len(), |i: int| lines@[i]@);
    let mut i: usize = 0;
    proof {
        assert(old(out)@ + lines_text(all.take(0)) == old(out)@);
    }
    while i < lines.len()
        invariant
            i <= lines.len(),
            all == Seq::new(lines@.len(), |i: int| lines@[i]@),
            out@ == old(out)@ + lines_text(all.take(i as int)),
        decreases lines.len() - i,
    {
        push_line(out, lines[i]);
        proof {
            let done = all.take(i + 1);
            assert(done.drop_last() == all.take(i as int));
            assert(done.last() == lines@[i as int]@);
            assert(out@ == old(out)@ + (lines_text(all.take(i as int)) + done.last() + "\n"@));
        }
        i += 1;
    }
    proof {
        assert(all.take(lines.len() as int) == all);
    }
}

/// Appends the lines that open a document of the configured dialect.
pub fn write_header(out: &mut String, args: &Args)
    ensures
        final(out)@ == old(out)@ + lines_text(header_lines(args.output_format)),
{
    let mut lines: Vec<&str> = Vec::new();
    match args.output_format {
        OutputFormat::Text => {
            lines.push("Repository Documentation");
            lines.push(
                "This document provides an overview of the repository's structure and contents.",
            );
            lines.push("The 'Directory/File Tree' section displays the repository's hierarchy.");
            lines.push("The 'File Content' section details the contents of each file.");
            lines.push("File contents are marked with '[File Begins]' and '[File Ends]' tags.\n");
        },
        OutputFormat::Markdown => {
            lines.push("# Repository Documentation");
            lines.push(
                "This document provides an overview of the repository's structure and contents.\n",
            );
            lines.push("## Directory/File Tree");
            lines.push("The following section displays the repository's hierarchy.\n");
            lines.push("## File Content");
            lines.push("This section details the contents of each file.\n");
        },
        OutputFormat::HTML => {
            lines.push("<!DOCTYPE html>");
            lines.push("<html lang=\"en\">");
            lines.push("<head>");
            lines.push("    <meta charset=\"UTF-8\">");
            lines.push(
                "    <meta name=\"viewport\" content=\"width=device-width, initial-scale=1.0\">",
            );
            lines.push("    <title>Repository Documentation</title>");
            lines.push("</head>");
            lines.push("<body>");
            lines.push("    <h1>Repository Documentation</h1>");
            lines.push(
                "    <p>This document provides an overview of the repository's structure and contents.</p>",
            );
            lines.push("    <h2>Directory/File Tree</h2>");
            lines.push("    <p>The following section displays the repository's hierarchy.</p>");
            lines.push("    <h2>File Content</h2>");
            lines.push("    <p>This section details the contents of each file.</p>");
        },
    }
    assert(Seq::new(lines@.len(), |i: int| lines@[i]@) == header_lines(args.output_format));
    push_lines(out, &lines);
}

/// Appends the lines that close a document of the configured dialect.
pub fn write_footer(out: &mut String, args: &Args)
    ensures
        final(out)@ == old(out)@ + lines_text(footer_lines(args.output_format)),
{
    let mut lines: Vec<&str> = Vec::new();
    if args.output_format == OutputFormat::HTML {
        lines.push("</body>\n</html>");
    }
    assert(Seq::new(lines@.len(), |i: int| lines@[i]@) == footer_lines(args.output_format));
    push_lines(out, &lines);
}

/// Appends the indentation of a level.
fn push_indent(out: &mut String, depth: usize)
    ensures
        final(out)@ == old(out)@ + indent(depth as nat),
{
    let mut i: usize = 0;
    proof {
        assert(old(out)@ + indent(0) == old(out)@);
    }
    while i < depth
        invariant
            i <= depth,
            out@ == old(out)@ + indent(i as nat),
        decreases depth - i,
    {
        out.append("    ");
        proof {
            assert(out@ == old(out)@ + (indent(i as nat) + "    "@));
        }
        i += 1;
    }
}

/// Appends the tree: one line for each entry, in order.
pub fn write_tree(entries: &Vec<Entry>, out: &mut String)
    ensures
        final(out)@ == old(out)@ + lines_text(tree_lines(entry_views(entries@))),
{
    let ghost all = tree_lines(entry_views(entries@));
    let mut i: usize = 0;
    proof {
        assert(old(out)@ + lines_text(all.take(0)) == old(out)@);
    }
    while i < entries.len()
        invariant
            i <= entries.len(),
            all == tree_lines(entry_views(entries@)),
            out@ == old(out)@ + lines_text(all.take(i as int)),
        decreases entries.len() - i,
    {
        let ghost before = lines_text(all.take(i as int));
        let entry = &entries[i];
        push_indent(out, entry.depth);
        if entry.depth > 0 {
            out.append("\u{2514}\u{2500}\u{2500} ");
        }
        out.append(entry.name.as_str());
        out.append("\n");
        proof {
            let done = all.take(i + 1);
            assert(done.drop_last() == all.take(i as int));
            assert(done.last() == tree_line(entry@));
            assert(out@ == old(out)@ + (before + tree_line(entry@) + "\n"@));
        }
        i += 1;
    }
    proof {
        assert(all.take(entries.len() as int) == all);
    }
}

/// Appends the lines of one file, each with a line break.
pub fn write_file_content(lines: &Vec<String>, out: &mut String)
    ensures
        final(out)@ == old(out)@ + lines_text(texts(lines@)),
{
    let ghost all = texts(lines@);
    let mut i: usize = 0;
    proof {
        assert(old(out)@ + lines_text(all.take(0)) == old(out)@);
    }
    while i < lines.len()
        invariant
            i <= lines.len(),
            all == texts(lines@),
            out@ == old(out)@ + lines_text(all.take(i as int)),
        decreases lines.len() - i,
    {
        push_line(out, lines[i].as_str());
        proof {
            let done = all.take(i + 1);
            assert(done.drop_last() == all.take(i as int));
            assert(done.last() == lines@[i as int]@);
            assert(out@ == old(out)@ + (lines_text(all.take(i as int)) + done.last() + "\n"@));
        }
        i += 1;
    }
    proof {
        assert(all.take(lines.len() as int) == all);
    }
}

/// Appends the content part: for each file entry whose lines were read, its
/// section. `contents` holds, at the position of each entry, the lines read
/// for it; an entry with none, or beyond the end of `contents`, is passed
/// over.
pub fn write_file_contents(entries: &Vec<Entry>, contents: &Vec<Option<Vec<String>>>, out: &mut String)
    ensures
        final(out)@ == old(out)@ + contents_text(
            entry_views(entries@),
            contents@,
            entries@.len(),
        ),
{
    let ghost views = entry_views(entries@);
    let mut i: usize = 0;
    proof {
        assert(old(out)@ + contents_text(views, contents@, 0) == old(out)@);
    }
    while i < entries.len()
        invariant
            i <= entries.len(),
            views == entry_views(entries@),
            out@ == old(out)@ + contents_text(views, contents@, i as nat),
        decreases entries.len() - i,
    {
        let ghost before = contents_text(views, contents@, i as nat);
        let ghost start = out@;
        let entry = &entries[i];
        let mut wrote = false;
        if entry.kind == EntryKind::File && i < contents.len() {
            if let Some(lines) = &contents[i] {
                out.append("[File Begins] ");
                push_line(out, entry.rel_path.as_str());
                write_file_content(lines, out);
                out.append("[File Ends] ");
                push_line(out, entry.rel_path.as_str());
                wrote = true;
                proof {
                    assert(lines_at(contents@, i as int) == Some(texts(lines@)));
                    assert(out@ == start + file_section(entry@, texts(lines@)));
                }
            }
        }
        proof {
            let section = entry_section(views[i as int], lines_at(contents@, i as int));
            if !wrote {
                assert(section == Seq::<char>::empty());
                assert(start + section == start);
            }
            assert(out@ == start + section);
            assert(out@ == old(out)@ + (before + section));
        }
        i += 1;
    }
}

/// Appends the part of the document that describes a repository.
pub fn write_repository(entries: &Vec<Entry>, contents: &Vec<Option<Vec<String>>>, out: &mut String)
    ensures
        final(out)@ == old(out)@ + repository_text(entry_views(entries@), contents@),
{
    out.append("Directory/File Tree Begins -->\n\n");
    write_tree(entries, out);
    out.append("\n<-- Directory/File Tree Ends\n");
    out.append("\nFile Content Begins -->\n\n");
    write_file_contents(entries, contents, out);
    out.append("\n<-- File Content Ends\n\n");
    proof {
        let views = entry_views(entries@);
        assert(out@ == old(out)@ + repository_text(views, contents@));
    }
}

} // verus!
