//! Everything that can go wrong, each with what there is to say about it.

use crate::text;
use crate::text::push_decimal;
use vstd::prelude::*;
use vstd::string::*;

verus! {

#[derive(Debug, Clone)]
pub enum Error {
    /// The operating system refused; `source` is its own words.
    Io { path: String, source: String },
    UnknownFormat { path: String },
    Malformed { path: String, detail: String },
    /// A format that is known but not implemented: which, and the tool that would be needed.
    Unsupported { path: String, format: &'static str, tool: &'static str },
    Flac { path: String, source: String },
    FlacMeta { path: String, source: String },
    Bencode { path: String, source: String },
    Torrent { path: String, detail: String },
    /// Encoding has no file to blame yet: the torrent does not exist until it succeeds.
    TorrentEncode { detail: String },
    /// A torrent names its files, and whoever made it chose the names.
    UnsafeTorrentPath { path: String, detail: String },
    /// A tracker that cannot be turned into an announce URL that would work.
    UnusableTracker { id: String, detail: String },
    /// A format that carries no tags.
    NotTaggable { path: String, format: &'static str },
    /// A metadata write must never touch audio; this is that promise failing.
    AudioChanged { path: String, before: String, after: String },
    /// Nothing is replaced unless asked.
    OutputExists { path: String },
    /// The tool, what it was for, and where it was looked for.
    ToolNotFound { tool: &'static str, purpose: &'static str, searched: String },
    ToolUnusable { tool: &'static str, path: String, detail: String },
    /// The tool ran and refused; `detail` is the tool's own words.
    ToolFailed { tool: &'static str, status: String, argv: String, detail: String },
    /// A sample clip that would not fit, or did not fit, the size it was to stay under.
    SampleTooLarge { path: String, detail: String },
    ChecksumSyntax { path: String, line: usize, kind: &'static str, detail: String },
    /// A job was asked to stop before it produced anything durable.
    Cancelled,
}

impl Error {
    /// The one line that says what went wrong.
    pub open spec fn text(&self) -> Seq<char> {
        match self {
            Error::Io { path, source } => path@ + ": "@ + source@,
            Error::UnknownFormat { path } => path@ + ": not a recognized audio file"@,
            Error::Malformed { path, detail } => path@ + ": "@ + detail@,
            Error::Unsupported { path, format, tool } => path@ + ": "@ + format@
                + " support requires "@ + tool@ + ", which is not available yet (see PLAN.md)"@,
            Error::Flac { path, source } => path@ + ": FLAC decode failed: "@ + source@,
            Error::FlacMeta { path, source } => path@ + ": FLAC metadata read failed: "@
                + source@,
            Error::Bencode { path, source } => path@ + ": not valid bencode: "@ + source@,
            Error::Torrent { path, detail } => path@ + ": not a usable torrent: "@ + detail@,
            Error::TorrentEncode { detail } => "cannot write a torrent: "@ + detail@,
            Error::UnsafeTorrentPath { path, detail } => path@
                + ": refusing unsafe path in torrent: "@ + detail@,
            Error::UnusableTracker { id, detail } => "tracker "@ + id@ + ": "@ + detail@,
            Error::NotTaggable { path, format } => path@ + ": "@ + format@
                + " carries no Vorbis comments; only FLAC can hold etree tags"@,
            Error::AudioChanged { path, before, after } => path@ + ": audio MD5 changed from "@
                + before@ + " to "@ + after@
                + " — a metadata write must never touch audio; refusing to go on"@,
            Error::OutputExists { path } => path@ + " already exists; refusing to overwrite it"@,
            Error::ToolNotFound { tool, purpose, searched } => purpose@ + " requires "@ + tool@
                + ", which was not found (looked in "@ + searched@ + ")"@,
            Error::ToolUnusable { tool, path, detail } => tool@ + " at "@ + path@
                + " cannot be used: "@ + detail@,
            Error::ToolFailed { tool, status, argv, detail } => tool@ + " failed ("@ + status@
                + "): "@ + detail@ + "\n  argv: "@ + argv@,
            Error::SampleTooLarge { path, detail } => path@ + ": "@ + detail@,
            Error::ChecksumSyntax { path, line, kind, detail } => path@ + ":"@ + text::decimal(
                *line as nat,
            ) + ": malformed "@ + kind@ + " entry: "@ + detail@,
            Error::Cancelled => "cancelled before it finished"@,
        }
    }

    /// Whether it is [`Error::Malformed`] with this path and detail.
    pub open spec fn is_malformed(&self, p: Seq<char>, d: Seq<char>) -> bool {
        self matches Error::Malformed { path, detail } && path@ == p && detail@ == d
    }

    /// Whether it is [`Error::Torrent`] with this path and detail.
    pub open spec fn is_torrent(&self, p: Seq<char>, d: Seq<char>) -> bool {
        self matches Error::Torrent { path, detail } && path@ == p && detail@ == d
    }

    /// Whether it is [`Error::UnsafeTorrentPath`] with this path and detail.
    pub open spec fn is_unsafe_path(&self, p: Seq<char>, d: Seq<char>) -> bool {
        self matches Error::UnsafeTorrentPath { path, detail } && path@ == p && detail@ == d
    }

    /// Whether it is [`Error::OutputExists`] for this path.
    pub open spec fn is_output_exists(&self, p: Seq<char>) -> bool {
        self matches Error::OutputExists { path } && path@ == p
    }

    pub fn io(path: &str, source: &str) -> (e: Error)
        ensures
            e matches Error::Io { path: p, source: s } && p@ == path@ && s@ == source@,
    {
        Error::Io { path: path.to_owned(), source: source.to_owned() }
    }

    pub fn malformed(path: &str, detail: &str) -> (e: Error)
        ensures
            e.is_malformed(path@, detail@),
    {
        Error::Malformed { path: path.to_owned(), detail: detail.to_owned() }
    }

    pub fn torrent(path: &str, detail: &str) -> (e: Error)
        ensures
            e.is_torrent(path@, detail@),
    {
        Error::Torrent { path: path.to_owned(), detail: detail.to_owned() }
    }

    pub fn unsafe_path(path: &str, detail: &str) -> (e: Error)
        ensures
            e.is_unsafe_path(path@, detail@),
    {
        Error::UnsafeTorrentPath { path: path.to_owned(), detail: detail.to_owned() }
    }

    /// What to show the user.
    pub fn to_string(&self) -> (s: String)
        ensures
            s@ == self.text(),
    {
        match self {
            Error::Io { path, source } => said(path, ": ", source),
            Error::UnknownFormat { path } => said(path, ": not a recognized audio file", ""),
            Error::Malformed { path, detail } => said(path, ": ", detail),
            Error::Unsupported { path, format, tool } => {
                let mut s = said(path, ": ", format);
                s.append(" support requires ");
                s.append(tool);
                s.append(", which is not available yet (see PLAN.md)");
                s
            },
            Error::Flac { path, source } => said(path, ": FLAC decode failed: ", source),
            Error::FlacMeta { path, source } => said(
                path,
                ": FLAC metadata read failed: ",
                source,
            ),
            Error::Bencode { path, source } => said(path, ": not valid bencode: ", source),
            Error::Torrent { path, detail } => said(path, ": not a usable torrent: ", detail),
            Error::TorrentEncode { detail } => said("cannot write a torrent: ", detail, ""),
            Error::UnsafeTorrentPath { path, detail } => said(
                path,
                ": refusing unsafe path in torrent: ",
                detail,
            ),
            Error::UnusableTracker { id, detail } => {
                let mut s = said("tracker ", id, ": ");
                s.append(detail);
                s
            },
            Error::NotTaggable { path, format } => {
                let mut s = said(path, ": ", format);
                s.append(" carries no Vorbis comments; only FLAC can hold etree tags");
                s
            },
            Error::AudioChanged { path, before, after } => {
                let mut s = said(path, ": audio MD5 changed from ", before);
                s.append(" to ");
                s.append(after);
                s.append(" — a metadata write must never touch audio; refusing to go on");
                s
            },
            Error::OutputExists { path } => said(
                path,
                " already exists; refusing to overwrite it",
                "",
            ),
            Error::ToolNotFound { tool, purpose, searched } => {
                let mut s = said(purpose, " requires ", tool);
                s.append(", which was not found (looked in ");
                s.append(searched);
                s.append(")");
                s
            },
            Error::ToolUnusable { tool, path, detail } => {
                let mut s = said(tool, " at ", path);
                s.append(" cannot be used: ");
                s.append(detail);
                s
            },
            Error::ToolFailed { tool, status, argv, detail } => {
                let mut s = said(tool, " failed (", status);
                s.append("): ");
                s.append(detail);
                s.append("\n  argv: ");
                s.append(argv);
                s
            },
            Error::SampleTooLarge { path, detail } => said(path, ": ", detail),
            Error::ChecksumSyntax { path, line, kind, detail } => {
                let mut s = said(path, ":", "");
                push_decimal(&mut s, *line as u64);
                s.append(": malformed ");
                s.append(kind);
                s.append(" entry: ");
                s.append(detail);
                s
            },
            Error::Cancelled => "cancelled before it finished".to_owned(),
        }
    }
}

/// Three texts in a row; an empty third one adds nothing.
fn said(a: &str, b: &str, c: &str) -> (s: String)
    ensures
        s@ == a@ + b@ + c@,
        c@ == ""@ ==> s@ == a@ + b@,
{
    let mut s = a.to_owned();
    s.append(b);
    s.append(c);
    proof {
        reveal_strlit("");
        assert(c@ == ""@ ==> a@ + b@ + c@ =~= a@ + b@);
    }
    s
}

} // verus!
