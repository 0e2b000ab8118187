//! The registry of external reference binaries, and the record that running one leaves.
//!
//! Anything that produces a file people will trade goes through the reference tool, so that
//! the FLAC vendor string reads `reference libFLAC x.y.z`. Every tool is looked for once, its
//! own version output and the SHA-256 of its binary are captured, and every operation that
//! runs one records tool, version, hash and the exact argv.

use crate::digest;
use crate::digest::{hex_encode, sha256_of};
use crate::error::Error;
use crate::text;
use crate::text::{join_strings, lossy, push_signed, spoken_lines_of};
use vstd::prelude::*;
use vstd::string::*;

verus! {

/// This build's version.
pub const CRATE_VERSION: &'static str = "0.1.0";

/// An external binary that can be talked to.
#[derive(Debug, Clone, Copy, PartialEq, Eq, PartialOrd, Ord, Hash, Structural)]
pub enum ToolId {
    Flac,
    Metaflac,
    Shntool,
    Lame,
    Ffmpeg,
}

impl ToolId {
    pub open spec fn name_text(self) -> Seq<char> {
        match self {
            ToolId::Flac => "flac"@,
            ToolId::Metaflac => "metaflac"@,
            ToolId::Shntool => "shntool"@,
            ToolId::Lame => "lame"@,
            ToolId::Ffmpeg => "ffmpeg"@,
        }
    }

    pub fn name(self) -> (s: &'static str)
        ensures
            s@ == self.name_text(),
    {
        match self {
            ToolId::Flac => "flac",
            ToolId::Metaflac => "metaflac",
            ToolId::Shntool => "shntool",
            ToolId::Lame => "lame",
            ToolId::Ffmpeg => "ffmpeg",
        }
    }

    pub open spec fn purpose_text(self) -> Seq<char> {
        match self {
            ToolId::Flac => "encoding WAV to FLAC"@,
            ToolId::Metaflac => "tag editing"@,
            ToolId::Shntool => "SHN support"@,
            ToolId::Lame => "encoding samples to MP3"@,
            ToolId::Ffmpeg => "encoding samples"@,
        }
    }

    /// What it is used for. This goes into the "not found" message, so that the user learns
    /// what they lose rather than merely that a file is absent.
    pub fn purpose(self) -> (s: &'static str)
        ensures
            s@ == self.purpose_text(),
    {
        match self {
            ToolId::Flac => "encoding WAV to FLAC",
            ToolId::Metaflac => "tag editing",
            ToolId::Shntool => "SHN support",
            ToolId::Lame => "encoding samples to MP3",
            ToolId::Ffmpeg => "encoding samples",
        }
    }

    /// Whether it is needed. `flac` alone: it is how the vendor string stays
    /// `reference libFLAC`.
    pub fn is_required(self) -> (b: bool)
        ensures
            b == (self is Flac),
    {
        matches!(self, ToolId::Flac)
    }

    pub open spec fn env_text(self) -> Seq<char> {
        match self {
            ToolId::Flac => "LH_FLAC"@,
            ToolId::Metaflac => "LH_METAFLAC"@,
            ToolId::Shntool => "LH_SHNTOOL"@,
            ToolId::Lame => "LH_LAME"@,
            ToolId::Ffmpeg => "LH_FFMPEG"@,
        }
    }

    /// The environment variable that overrides the search, e.g. `LH_FLAC`.
    pub fn env_var(self) -> (s: &'static str)
        ensures
            s@ == self.env_text(),
    {
        match self {
            ToolId::Flac => "LH_FLAC",
            ToolId::Metaflac => "LH_METAFLAC",
            ToolId::Shntool => "LH_SHNTOOL",
            ToolId::Lame => "LH_LAME",
            ToolId::Ffmpeg => "LH_FFMPEG",
        }
    }

    pub open spec fn version_text(self) -> Seq<char> {
        match self {
            ToolId::Shntool => "-v"@,
            ToolId::Ffmpeg => "-version"@,
            _ => "--version"@,
        }
    }

    /// Not everything spells it `--version`; shntool wants `-v`, and ffmpeg `-version`.
    pub fn version_arg(self) -> (s: &'static str)
        ensures
            s@ == self.version_text(),
    {
        match self {
            ToolId::Shntool => "-v",
            ToolId::Ffmpeg => "-version",
            _ => "--version",
        }
    }

    /// The name of its file, which ends in `.exe` on Windows.
    pub fn file_name(self, windows: bool) -> (s: String)
        ensures
            s@ == if windows {
                self.name_text() + ".exe"@
            } else {
                self.name_text()
            },
    {
        let mut s = self.name().to_owned();
        if windows {
            s.append(".exe");
        }
        s
    }
}

/// Every known tool, the required one first.
pub open spec fn all_tools() -> Seq<ToolId> {
    seq![ToolId::Flac, ToolId::Metaflac, ToolId::Shntool, ToolId::Lame, ToolId::Ffmpeg]
}

/// Every known tool, in the order in which they are looked for.
pub fn known_tools() -> (v: Vec<ToolId>)
    ensures
        v@ == all_tools(),
{
    let mut v: Vec<ToolId> = Vec::new();
    v.push(ToolId::Flac);
    v.push(ToolId::Metaflac);
    v.push(ToolId::Shntool);
    v.push(ToolId::Lame);
    v.push(ToolId::Ffmpeg);
    assert(v@ =~= all_tools());
    v
}

/// Where a tool came from. Shown to the user, because "the one I built myself" and "the one
/// you shipped" are answers that a trader is entitled to tell apart.
#[derive(Debug, Clone, Copy, PartialEq, Eq, Structural)]
pub enum ToolSource {
    /// Pointed at by the user through the tool's environment variable. Always wins.
    Configured,
    /// A sidecar shipped next to the executable.
    Bundled,
    /// Found on `PATH`.
    Path,
}

impl ToolSource {
    pub fn label(self) -> (s: &'static str)
        ensures
            s@ == match self {
                ToolSource::Configured => "configured"@,
                ToolSource::Bundled => "bundled"@,
                ToolSource::Path => "PATH"@,
            },
    {
        match self {
            ToolSource::Configured => "configured",
            ToolSource::Bundled => "bundled",
            ToolSource::Path => "PATH",
        }
    }
}

/// A binary that was found, interrogated once at startup.
#[derive(Debug, Clone)]
pub struct Tool {
    pub id: ToolId,
    pub path: String,
    pub source: ToolSource,
    /// The first line of the tool's own version output, verbatim: the point is to record what
    /// it said, not what it was understood to mean.
    pub version: String,
    /// Hex SHA-256 of the binary.
    pub sha256: String,
}

/// What a search found, including the ways it can fail. A tool that is present but unusable
/// is a different problem from one that is absent, and says so.
#[derive(Debug, Clone)]
pub enum Discovery {
    Found(Tool),
    /// Absent. Carries everywhere that was looked, so that the user can fix it.
    NotFound { searched: Vec<String> },
    /// Present but unusable: unreadable, or it would not report a version.
    Unusable { path: String, reason: String },
}

/// What is known of the places where a tool may be: each path with whether a file is there.
#[derive(Debug, Clone)]
pub struct Places {
    /// Named by the caller.
    pub override_path: Option<(String, bool)>,
    /// Named by the tool's environment variable.
    pub env: Option<(String, bool)>,
    /// The `tools` folder beside the executable.
    pub sidecar: Option<(String, bool)>,
    /// What a search of `PATH` came up with.
    pub on_path: Option<String>,
}

/// Where a tool was found, or everywhere that was looked.
pub enum Located {
    At { path: Seq<char>, source: ToolSource },
    Nowhere { searched: Seq<Seq<char>> },
}

/// User-configured path, then bundled sidecar, then `PATH`. A configured path is the whole
/// search: quietly falling back to some other binary when the named one is absent would make
/// the provenance record a lie.
pub open spec fn search(id: ToolId, places: Places) -> Located {
    match (places.override_path, places.env) {
        (Some((path, there)), _) => if there {
            Located::At { path: path@, source: ToolSource::Configured }
        } else {
            Located::Nowhere { searched: seq![path@] }
        },
        (None, Some((path, there))) => if there {
            Located::At { path: path@, source: ToolSource::Configured }
        } else {
            Located::Nowhere { searched: seq![path@ + " (from "@ + id.env_text() + ")"@] }
        },
        (None, None) => match (places.sidecar, places.on_path) {
            (Some((path, true)), _) => Located::At { path: path@, source: ToolSource::Bundled },
            (_, Some(path)) => Located::At { path: path@, source: ToolSource::Path },
            (Some((path, false)), None) => Located::Nowhere {
                searched: seq![path@, id.name_text() + " on PATH"@],
            },
            (None, None) => Located::Nowhere { searched: seq![id.name_text() + " on PATH"@] },
        },
    }
}

pub fn locate(id: ToolId, places: &Places) -> (r: Result<(String, ToolSource), Vec<String>>)
    ensures
        match r {
            Ok((path, source)) => search(id, *places) == (Located::At { path: path@, source }),
            Err(searched) => search(id, *places) == (Located::Nowhere {
                searched: text::views(searched@),
            }),
        },
{
    let mut searched: Vec<String> = Vec::new();
    match &places.override_path {
        Some((path, there)) => {
            if *there {
                return Ok((path.clone(), ToolSource::Configured));
            }
            searched.push(path.clone());
            assert(text::views(searched@) =~= seq![path@]);
            return Err(searched);
        },
        None => {},
    }
    match &places.env {
        Some((path, there)) => {
            if *there {
                return Ok((path.clone(), ToolSource::Configured));
            }
            let mut label = path.clone();
            label.append(" (from ");
            label.append(id.env_var());
            label.append(")");
            let ghost said = label@;
            searched.push(label);
            assert(text::views(searched@) =~= seq![said]);
            return Err(searched);
        },
        None => {},
    }
    match &places.sidecar {
        Some((path, there)) => {
            if *there {
                return Ok((path.clone(), ToolSource::Bundled));
            }
            searched.push(path.clone());
        },
        None => {},
    }
    match &places.on_path {
        Some(path) => Ok((path.clone(), ToolSource::Path)),
        None => {
            let mut label = id.name().to_owned();
            label.append(" on PATH");
            let ghost said = label@;
            searched.push(label);
            proof {
                match &places.sidecar {
                    Some((path, _)) => {
                        assert(text::views(searched@) =~= seq![path@, said]);
                    },
                    None => {
                        assert(text::views(searched@) =~= seq![said]);
                    },
                }
            }
            Err(searched)
        },
    }
}

/// The first line that says something.
pub open spec fn first_spoken(said: Seq<u8>) -> Option<Seq<char>> {
    let ls = text::spoken_lines(text::lines(text::lossy_text(said)));
    if ls.len() > 0 {
        Some(ls[0])
    } else {
        None
    }
}

fn first_line(said: &[u8]) -> (r: Option<String>)
    ensures
        match r {
            Some(s) => first_spoken(said@) == Some(s@),
            None => first_spoken(said@) is None,
        },
{
    let text = lossy(said);
    let ls = spoken_lines_of(&text);
    if ls.len() > 0 {
        assert(text::views(ls@)[0] == ls@[0]@);
        Some(ls[0].clone())
    } else {
        None
    }
}

/// What a tool says it is. Version output goes to stdout for some tools and to stderr for
/// others; whichever spoke is taken, verbatim.
pub fn capture_version(id: ToolId, path: &str, stdout: &[u8], stderr: &[u8]) -> (r: Result<
    String,
    String,
>)
    ensures
        match r {
            Ok(s) => Some(s@) == match first_spoken(stdout@) {
                Some(l) => Some(l),
                None => first_spoken(stderr@),
            },
            Err(e) => first_spoken(stdout@) is None && first_spoken(stderr@) is None && e@
                == "ran `"@ + path@ + " "@ + id.version_text()
                + "` but it printed no version"@,
        },
{
    match first_line(stdout) {
        Some(s) => {
            return Ok(s);
        },
        None => {},
    }
    match first_line(stderr) {
        Some(s) => Ok(s),
        None => {
            let mut e = "ran `".to_owned();
            e.append(path);
            e.append(" ");
            e.append(id.version_arg());
            e.append("` but it printed no version");
            Err(e)
        },
    }
}

/// The hexadecimal SHA-256 of a binary.
pub fn hash_binary(bytes: &[u8]) -> (s: String)
    ensures
        s@ == digest::hex_text(digest::sha256_digest(bytes@)),
{
    hex_encode(&sha256_of(bytes))
}

/// What becomes of a search: where the tool was found, and what it had to say there.
pub open spec fn is_discovery(
    d: Discovery,
    id: ToolId,
    located: Result<(String, ToolSource), Vec<String>>,
    version: Result<String, String>,
    sha256: Result<String, String>,
) -> bool {
    match located {
        Err(searched) => d matches Discovery::NotFound { searched: s } && s == searched,
        Ok((path, source)) => match (version, sha256) {
            (Err(reason), _) => d matches Discovery::Unusable { path: p, reason: r } && p@ == path@
                && r@ == reason@,
            (Ok(_), Err(reason)) => d matches Discovery::Unusable { path: p, reason: r } && p@
                == path@ && r@ == reason@,
            (Ok(v), Ok(h)) => d matches Discovery::Found(t) && t.id == id && t.path@ == path@
                && t.source == source && t.version@ == v@ && t.sha256@ == h@,
        },
    }
}

pub fn discovery(
    id: ToolId,
    located: Result<(String, ToolSource), Vec<String>>,
    version: Result<String, String>,
    sha256: Result<String, String>,
) -> (d: Discovery)
    ensures
        is_discovery(d, id, located, version, sha256),
{
    match located {
        Err(searched) => Discovery::NotFound { searched },
        Ok((path, source)) => match (version, sha256) {
            (Err(reason), _) => Discovery::Unusable { path, reason },
            (Ok(_), Err(reason)) => Discovery::Unusable { path, reason },
            (Ok(version), Ok(sha256)) => Discovery::Found(
                Tool { id, path, source, version, sha256 },
            ),
        },
    }
}

/// Every tool that was looked for and what became of it.
#[derive(Debug, Clone)]
pub struct Registry {
    entries: Vec<(ToolId, Discovery)>,
}

/// Where a tool stands among the entries; the number of entries where it does not.
pub open spec fn entry_at(entries: Seq<(ToolId, Discovery)>, id: ToolId) -> int
    decreases entries.len(),
{
    if entries.len() == 0 || entries[0].0 == id {
        0
    } else {
        1 + entry_at(entries.drop_first(), id)
    }
}

/// The required tools among the first entries that are not usable.
pub open spec fn missing(entries: Seq<(ToolId, Discovery)>) -> Seq<ToolId>
    decreases entries.len(),
{
    if entries.len() == 0 {
        Seq::empty()
    } else {
        let (id, d) = entries.last();
        if id is Flac && !(d is Found) {
            missing(entries.drop_last()).push(id)
        } else {
            missing(entries.drop_last())
        }
    }
}

impl View for Registry {
    type V = Seq<(ToolId, Discovery)>;

    closed spec fn view(&self) -> Seq<(ToolId, Discovery)> {
        self.entries@
    }
}

impl Registry {
    /// A registry of every known tool, from what became of looking for each, in the order of
    /// [`known_tools`].
    pub fn discover_with(found: Vec<Discovery>) -> (r: Registry)
        requires
            found.len() == all_tools().len(),
        ensures
            r@.len() == found.len(),
            forall|i: int|
                0 <= i < found.len() ==> #[trigger] r@[i] == (all_tools()[i], found@[i]),
    {
        let ids = known_tools();
        let mut entries: Vec<(ToolId, Discovery)> = Vec::new();
        let ghost all = found@;
        let mut rest = found;
        let mut i: usize = 0;
        while i < ids.len()
            invariant
                i <= ids.len(),
                ids@ == all_tools(),
                all.len() == ids.len(),
                rest.len() == all.len() - i,
                forall|k: int| 0 <= k < rest.len() ==> #[trigger] rest@[k] == all[i + k],
                entries.len() == i,
                forall|k: int| 0 <= k < i ==> #[trigger] entries@[k] == (all_tools()[k], all[k]),
            decreases ids.len() - i,
        {
            assert(rest@[0] == all[i + 0]);
            let d = rest.remove(0);
            entries.push((ids[i], d));
            i += 1;
        }
        Registry { entries }
    }

    /// A registry of exactly one tool, for a command that needs only that one.
    pub fn discover_one(id: ToolId, found: Discovery) -> (r: Registry)
        ensures
            r@ == seq![(id, found)],
    {
        let mut entries: Vec<(ToolId, Discovery)> = Vec::new();
        entries.push((id, found));
        assert(entries@ =~= seq![(id, found)]);
        Registry { entries }
    }

    /// The tool, or an error that names it, says what it was for and lists where it was
    /// looked for.
    pub fn require(&self, id: ToolId) -> (r: Result<&Tool, Error>)
        ensures
            ({
                let at = entry_at(self@, id);
                match r {
                    Ok(t) => at < self@.len() && self@[at].1 == Discovery::Found(*t),
                    Err(e) => if at >= self@.len() {
                        e matches Error::ToolNotFound { tool, purpose, searched } && tool@
                            == id.name_text() && purpose@ == id.purpose_text() && searched@
                            == "nowhere — this tool was not looked for"@
                    } else {
                        match self@[at].1 {
                            Discovery::Found(_) => false,
                            Discovery::Unusable { path, reason } => e matches Error::ToolUnusable {
                                tool,
                                path: p,
                                detail,
                            } && tool@ == id.name_text() && p@ == path@ && detail@ == reason@,
                            Discovery::NotFound { searched } => e matches Error::ToolNotFound {
                                tool,
                                purpose,
                                searched: s,
                            } && tool@ == id.name_text() && purpose@ == id.purpose_text() && s@
                                == text::join(text::views(searched@), ", "@),
                        }
                    },
                }
            }),
    {
        let mut i: usize = 0;
        assert(self.entries@.skip(0) =~= self.entries@);
        while i < self.entries.len()
            invariant
                i <= self.entries.len(),
                entry_at(self@, id) == i + entry_at(self.entries@.skip(i as int), id),
            decreases self.entries.len() - i,
        {
            assert(self.entries@.skip(i as int).drop_first() =~= self.entries@.skip(i as int + 1));
            if self.entries[i].0 == id {
                return match &self.entries[i].1 {
                    Discovery::Found(t) => Ok(t),
                    Discovery::Unusable { path, reason } => Err(
                        Error::ToolUnusable {
                            tool: id.name(),
                            path: path.clone(),
                            detail: reason.clone(),
                        },
                    ),
                    Discovery::NotFound { searched } => Err(
                        Error::ToolNotFound {
                            tool: id.name(),
                            purpose: id.purpose(),
                            searched: join_strings(searched, ", "),
                        },
                    ),
                };
            }
            i += 1;
        }
        Err(
            Error::ToolNotFound {
                tool: id.name(),
                purpose: id.purpose(),
                searched: "nowhere — this tool was not looked for".to_owned(),
            },
        )
    }

    /// Every entry, in the order in which they were looked for.
    pub fn entries(&self) -> (v: &Vec<(ToolId, Discovery)>)
        ensures
            v@ == self@,
    {
        &self.entries
    }

    /// Required tools that are not usable. Empty means that the install is complete.
    pub fn missing_required(&self) -> (v: Vec<ToolId>)
        ensures
            v@ == missing(self@),
    {
        let mut v: Vec<ToolId> = Vec::new();
        let mut i: usize = 0;
        while i < self.entries.len()
            invariant
                i <= self.entries.len(),
                v@ == missing(self.entries@.take(i as int)),
            decreases self.entries.len() - i,
        {
            assert(self.entries@.take(i as int + 1).drop_last() =~= self.entries@.take(i as int));
            let found = matches!(self.entries[i].1, Discovery::Found(_));
            if self.entries[i].0.is_required() && !found {
                v.push(self.entries[i].0);
            }
            i += 1;
        }
        assert(self.entries@.take(self.entries@.len() as int) =~= self.entries@);
        v
    }
}

/// Who did the work.
#[derive(Debug, Clone, PartialEq, Eq)]
pub enum Agent {
    /// This library itself. The audit trail should say that nothing else touched the file.
    InProcess { crate_version: &'static str },
    /// A reference binary, recorded exactly enough to be re-run and audited.
    Tool {
        id: ToolId,
        path: String,
        /// The tool's own version line, verbatim.
        version: String,
        sha256: String,
        /// The exact argv, argv[0] included.
        argv: Vec<String>,
    },
}

impl Agent {
    /// The in-process agent, stamped with this build.
    pub fn in_process() -> (a: Agent)
        ensures
            a == (Agent::InProcess { crate_version: CRATE_VERSION }),
    {
        Agent::InProcess { crate_version: CRATE_VERSION }
    }

    /// A tool that ran with this argv.
    pub fn of_tool(tool: &Tool, argv: Vec<String>) -> (a: Agent)
        ensures
            a matches Agent::Tool { id, path, version, sha256, argv: v } && id == tool.id && path@
                == tool.path@ && version@ == tool.version@ && sha256@ == tool.sha256@ && v == argv,
    {
        Agent::Tool {
            id: tool.id,
            path: tool.path.clone(),
            version: tool.version.clone(),
            sha256: tool.sha256.clone(),
            argv,
        }
    }
}

/// What happened to one file, and who made it happen.
#[derive(Debug, Clone, PartialEq, Eq)]
pub struct Provenance {
    /// Human-readable, e.g. "FLAC → WAV".
    pub operation: String,
    pub agent: Agent,
    pub input: String,
    pub output: String,
}

/// The lines that say who did it.
pub open spec fn agent_text(a: Agent) -> Seq<char> {
    match a {
        Agent::InProcess { crate_version } => "  in-process (lh-core "@ + crate_version@ + ")\n"@,
        Agent::Tool { id, path, version, sha256, argv } => "  "@ + version@ + "\n"@ + "  "@ + path@
            + " (sha256 "@ + sha256@ + ")\n"@ + "  argv: "@ + text::join(
            text::views(argv@),
            " "@,
        ) + "\n"@,
    }
}

impl Provenance {
    pub open spec fn text(&self) -> Seq<char> {
        self.operation@ + ": "@ + self.input@ + " -> "@ + self.output@ + "\n"@ + agent_text(
            self.agent,
        )
    }

    /// The audit-log rendering: the operation, then who did it, then the argv if there was
    /// one. Indented as a block so that it reads under a per-file heading.
    pub fn render(&self) -> (s: String)
        ensures
            s@ == self.text(),
    {
        let mut s = self.operation.clone();
        s.append(": ");
        s.append(&self.input);
        s.append(" -> ");
        s.append(&self.output);
        s.append("\n");
        let mut who = String::new();
        match &self.agent {
            Agent::InProcess { crate_version } => {
                who = "  in-process (lh-core ".to_owned();
                who.append(crate_version);
                who.append(")\n");
            },
            Agent::Tool { id, path, version, sha256, argv } => {
                who = "  ".to_owned();
                who.append(version);
                who.append("\n");
                who.append("  ");
                who.append(path);
                who.append(" (sha256 ");
                who.append(sha256);
                who.append(")\n");
                who.append("  argv: ");
                who.append(&join_strings(argv, " "));
                who.append("\n");
            },
        }
        s.append(&who);
        s
    }
}

/// The exact argv of a run: the tool's path, and the arguments.
pub fn full_argv(tool: &Tool, args: &Vec<String>) -> (argv: Vec<String>)
    ensures
        text::views(argv@) == seq![tool.path@] + text::views(args@),
{
    let mut argv: Vec<String> = Vec::new();
    argv.push(tool.path.clone());
    let mut i: usize = 0;
    while i < args.len()
        invariant
            i <= args.len(),
            argv.len() == i + 1,
            argv@[0]@ == tool.path@,
            forall|k: int| 0 <= k < i ==> (#[trigger] argv@[k + 1])@ == args@[k]@,
        decreases args.len() - i,
    {
        argv.push(args[i].clone());
        i += 1;
    }
    proof {
        let v = text::views(argv@);
        let w = seq![tool.path@] + text::views(args@);
        assert forall|k: int| 0 <= k < v.len() implies #[trigger] v[k] == w[k] by {
            if k > 0 {
                assert(argv@[(k - 1) + 1]@ == args@[k - 1]@);
            }
        }
        assert(v =~= w);
    }
    argv
}

/// The last lines of what a tool said. Tools are chatty on stderr, so the tail is quoted,
/// which is where the complaint is, rather than the whole transcript.
pub open spec fn tail_text(said: Seq<u8>, n: nat) -> Seq<char> {
    let ls = text::spoken_lines(text::lines(text::lossy_text(said)));
    if ls.len() == 0 {
        "it said nothing"@
    } else {
        text::join(
            if ls.len() > n {
                ls.skip(ls.len() - n)
            } else {
                ls
            },
            "; "@,
        )
    }
}

pub fn last_lines(said: &[u8], n: usize) -> (s: String)
    ensures
        s@ == tail_text(said@, n as nat),
{
    let text = lossy(said);
    let ls = spoken_lines_of(&text);
    if ls.len() == 0 {
        return "it said nothing".to_owned();
    }
    let start: usize = if ls.len() > n {
        ls.len() - n
    } else {
        0
    };
    let mut tail: Vec<String> = Vec::new();
    let mut i: usize = start;
    let ghost all = text::views(ls@);
    while i < ls.len()
        invariant
            start <= i <= ls.len(),
            all == text::views(ls@),
            text::views(tail@) == all.subrange(start as int, i as int),
        decreases ls.len() - i,
    {
        let ghost before = text::views(tail@);
        tail.push(ls[i].clone());
        i += 1;
        assert(text::views(tail@) =~= before.push(all[i - 1]));
        assert(text::views(tail@) =~= all.subrange(start as int, i as int));
    }
    proof {
        if ls@.len() > n {
            assert(text::views(tail@) =~= all.skip(all.len() - n));
        } else {
            assert(text::views(tail@) =~= all);
        }
    }
    join_strings(&tail, "; ")
}

/// What is said of how a tool ended.
pub open spec fn status_text(code: Option<i32>) -> Seq<char> {
    match code {
        Some(c) => "exit status "@ + text::signed_decimal(c as int),
        None => "killed by a signal"@,
    }
}

/// The record of a run that ended, or the error of one that failed: it carries the tool's
/// own words.
pub fn finished_run(
    tool: &Tool,
    args: &Vec<String>,
    success: bool,
    code: Option<i32>,
    stderr: &[u8],
) -> (r: Result<Agent, Error>)
    ensures
        match r {
            Ok(a) => success && (a matches Agent::Tool { id, path, version, sha256, argv } && id
                == tool.id && path@ == tool.path@ && version@ == tool.version@ && sha256@
                == tool.sha256@ && text::views(argv@) == seq![tool.path@] + text::views(args@)),
            Err(e) => !success && (e matches Error::ToolFailed { tool: t, status, argv, detail }
                && t@ == tool.id.name_text() && status@ == status_text(code) && argv@
                == text::join(seq![tool.path@] + text::views(args@), " "@) && detail@
                == tail_text(stderr@, 5)),
        },
{
    let argv = full_argv(tool, args);
    if success {
        return Ok(Agent::of_tool(tool, argv));
    }
    let status = match code {
        Some(c) => {
            let mut s = "exit status ".to_owned();
            push_signed(&mut s, c as i64);
            s
        },
        None => "killed by a signal".to_owned(),
    };
    Err(
        Error::ToolFailed {
            tool: tool.id.name(),
            status,
            argv: join_strings(&argv, " "),
            detail: last_lines(stderr, 5),
        },
    )
}

/// A tool that was named, by the caller or else by its environment variable, is that one or
/// none; where none was named, one that lies beside the program comes before one on `PATH`.
pub proof fn law_named_tool_is_that_one_or_none(id: ToolId, places: Places)
    ensures
        ({
            let found = search(id, places);
            let named = match places.override_path {
                Some(o) => Some(o),
                None => places.env,
            };
            &&& named is Some ==> (found is At == (named->0).1)
            &&& named is Some && found is At ==> found->path == (named->0).0@ && found->source
                is Configured
            &&& named is None && places.sidecar is Some && (places.sidecar->0).1 ==> found is At
                && found->path == (places.sidecar->0).0@ && found->source is Bundled
            &&& named is None && !(places.sidecar is Some && (places.sidecar->0).1) ==> (found
                is At == places.on_path is Some)
            &&& named is None && !(places.sidecar is Some && (places.sidecar->0).1) && found is At
                ==> found->path == (places.on_path->0)@ && found->source is Path
            &&& found is Nowhere ==> found->searched.len() > 0
        }),
{
}

/// Only `flac` is missed, and only where what was found of it cannot be used.
pub proof fn law_only_flac_is_missed(entries: Seq<(ToolId, Discovery)>, id: ToolId)
    ensures
        missing(entries).contains(id) <==> id is Flac && exists|i: int|
            0 <= i < entries.len() && (#[trigger] entries[i]).0 is Flac && !(entries[i].1
                is Found),
    decreases entries.len(),
{
    if entries.len() > 0 {
        let front = entries.drop_last();
        law_only_flac_is_missed(front, id);
        let n = entries.len() - 1;
        let had = missing(front);
        let now = missing(entries);
        let last = entries.last();
        assert(entries[n] == last);
        if last.0 is Flac && !(last.1 is Found) {
            assert(now[had.len() as int] == last.0);
        }
        if had.contains(id) {
            let k = choose|k: int| 0 <= k < had.len() && had[k] == id;
            assert(now[k] == id);
            let i = choose|i: int|
                0 <= i < front.len() && (#[trigger] front[i]).0 is Flac && !(front[i].1 is Found);
            assert(entries[i] == front[i]);
        }
        if now.contains(id) {
            let k = choose|k: int| 0 <= k < now.len() && now[k] == id;
            assert(k < had.len() ==> had[k] == id);
        }
        if exists|i: int|
            0 <= i < entries.len() && (#[trigger] entries[i]).0 is Flac && !(entries[i].1
                is Found) {
            let i = choose|i: int|
                0 <= i < entries.len() && (#[trigger] entries[i]).0 is Flac && !(entries[i].1
                    is Found);
            assert(i < n ==> front[i] == entries[i]);
        }
    }
}

/// The variable that names a tool is `LH_` and its name in capitals.
pub proof fn law_variable_is_called_by_the_tool(id: ToolId)
    ensures
        id.env_text().len() == 3 + id.name_text().len(),
        id.env_text().take(3) == seq!['L', 'H', '_'],
        text::lowercase(id.env_text().skip(3)) == id.name_text(),
{
    reveal_strlit("LH_FLAC");
    reveal_strlit("LH_METAFLAC");
    reveal_strlit("LH_SHNTOOL");
    reveal_strlit("LH_LAME");
    reveal_strlit("LH_FFMPEG");
    reveal_strlit("flac");
    reveal_strlit("metaflac");
    reveal_strlit("shntool");
    reveal_strlit("lame");
    reveal_strlit("ffmpeg");
    assert(id.env_text().take(3) =~= seq!['L', 'H', '_']);
    assert(text::lowercase(id.env_text().skip(3)) =~= id.name_text());
}

} // verus!
