//! Tools: finding them, running them, and recording what did the work.

use lh_core::error::Error;
use lh_core::report::tools::panel_lines;
use lh_core::tools::{
    capture_version, discovery, finished_run, full_argv, hash_binary, known_tools, locate, Agent,
    Discovery, Places, Provenance, Registry, Tool, ToolId, ToolSource, CRATE_VERSION,
};

fn nowhere() -> Places {
    Places {
        override_path: None,
        env: None,
        sidecar: None,
        on_path: None,
    }
}

fn flac() -> Tool {
    Tool {
        id: ToolId::Flac,
        path: "/usr/bin/flac".to_string(),
        source: ToolSource::Path,
        version: "flac 1.4.3".to_string(),
        sha256: "ab".to_string(),
    }
}

#[test]
fn a_configured_path_is_the_whole_search() {
    let mut p = nowhere();
    p.env = Some(("/nowhere/flac".to_string(), false));
    p.on_path = Some("/usr/bin/flac".to_string());
    assert_eq!(
        locate(ToolId::Flac, &p),
        Err(vec!["/nowhere/flac (from LH_FLAC)".to_string()])
    );
    p.env = Some(("/opt/flac".to_string(), true));
    assert_eq!(
        locate(ToolId::Flac, &p),
        Ok(("/opt/flac".to_string(), ToolSource::Configured))
    );
    p.override_path = Some(("/mine/flac".to_string(), false));
    assert_eq!(locate(ToolId::Flac, &p), Err(vec!["/mine/flac".to_string()]));
}

#[test]
fn a_sidecar_comes_before_the_path() {
    let mut p = nowhere();
    p.sidecar = Some(("/app/tools/flac".to_string(), true));
    p.on_path = Some("/usr/bin/flac".to_string());
    assert_eq!(
        locate(ToolId::Flac, &p),
        Ok(("/app/tools/flac".to_string(), ToolSource::Bundled))
    );
    p.sidecar = Some(("/app/tools/flac".to_string(), false));
    assert_eq!(
        locate(ToolId::Flac, &p),
        Ok(("/usr/bin/flac".to_string(), ToolSource::Path))
    );
    p.on_path = None;
    assert_eq!(
        locate(ToolId::Flac, &p),
        Err(vec!["/app/tools/flac".to_string(), "flac on PATH".to_string()])
    );
}

#[test]
fn a_version_is_what_the_tool_said_first() {
    assert_eq!(
        capture_version(ToolId::Flac, "/f", b"\n  flac 1.4.3  \nmore\n", b""),
        Ok("flac 1.4.3".to_string())
    );
    assert_eq!(
        capture_version(ToolId::Flac, "/f", b"", b"said on stderr\n"),
        Ok("said on stderr".to_string())
    );
    assert_eq!(
        capture_version(ToolId::Flac, "/f", b"\xffflac\n", b""),
        Ok("\u{fffd}flac".to_string())
    );
    assert!(capture_version(ToolId::Flac, "/f", b"", b"  \n").is_err());
}

/// The digest of the empty input, and of three letters, as the standard gives them.
#[test]
fn a_binary_is_hashed() {
    assert_eq!(
        hash_binary(b""),
        "e3b0c44298fc1c149afbf4c8996fb92427ae41e4649b934ca495991b7852b855"
    );
    assert_eq!(
        hash_binary(b"abc"),
        "ba7816bf8f01cfea414140de5dae2223b00361a396177a9cb410ff61f20015ad"
    );
}

/// A tool that was pointed at by hand and is not there fails loudly.
#[test]
fn tools_reports_a_configured_flac_that_is_absent() {
    let found: Vec<Discovery> = known_tools()
        .iter()
        .map(|id| {
            let mut p = nowhere();
            if *id == ToolId::Flac {
                p.env = Some(("/fixtures/no-such-flac".to_string(), false));
            }
            discovery(*id, locate(*id, &p), Ok(String::new()), Ok(String::new()))
        })
        .collect();
    let registry = Registry::discover_with(found);
    let (lines, ok) = panel_lines(&registry);
    let text = lines.join("\n");
    assert!(!ok);
    assert!(text.contains("not found"), "{text}");
    assert!(text.contains("LH_FLAC"), "{text}");
    assert!(text.contains("flac is required"), "{text}");
    assert_eq!(registry.missing_required(), vec![ToolId::Flac]);
    let err = registry.require(ToolId::Flac).unwrap_err();
    assert!(matches!(err, Error::ToolNotFound { .. }), "{}", err.to_string());
}

#[test]
fn a_found_tool_shows_its_version_and_hash() {
    let registry = Registry::discover_one(ToolId::Flac, Discovery::Found(flac()));
    let (lines, ok) = panel_lines(&registry);
    assert!(ok);
    assert_eq!(
        lines,
        vec![
            "flac       /usr/bin/flac  (PATH)",
            "           flac 1.4.3",
            "           sha256 ab",
        ]
    );
    assert_eq!(registry.require(ToolId::Flac).unwrap().path, "/usr/bin/flac");
}

#[test]
fn an_unusable_tool_says_why() {
    let d = discovery(
        ToolId::Flac,
        Ok(("/x/flac".to_string(), ToolSource::Path)),
        Err("it said nothing".to_string()),
        Ok(String::new()),
    );
    let registry = Registry::discover_one(ToolId::Flac, d);
    let err = registry.require(ToolId::Flac).unwrap_err();
    assert!(matches!(err, Error::ToolUnusable { .. }), "{}", err.to_string());
    let (lines, ok) = panel_lines(&registry);
    assert!(!ok);
    assert_eq!(lines[0], "flac       /x/flac is unusable");
    assert_eq!(lines[1], "           it said nothing");
}

#[test]
fn a_run_is_recorded_and_a_failed_one_speaks_for_itself() {
    let args = vec!["-8".to_string(), "a.wav".to_string()];
    assert_eq!(full_argv(&flac(), &args), vec!["/usr/bin/flac", "-8", "a.wav"]);
    let agent = finished_run(&flac(), &args, true, Some(0), b"").unwrap();
    let p = Provenance {
        operation: "encode".to_string(),
        input: "a.wav".to_string(),
        output: "a.flac".to_string(),
        agent,
    };
    assert_eq!(
        p.render(),
        "encode: a.wav -> a.flac\n  flac 1.4.3\n  /usr/bin/flac (sha256 ab)\n  argv: /usr/bin/flac -8 a.wav\n"
    );
    let err = finished_run(&flac(), &args, false, Some(1), b"1\n2\n3\n4\n5\n6\n").unwrap_err();
    assert!(matches!(err, Error::ToolFailed { .. }));
    let said = err.to_string();
    assert!(said.contains("exit status 1"), "{said}");
    assert!(said.contains('6') && !said.contains("1\n2"), "{said}");
    let err = finished_run(&flac(), &args, false, None, b"").unwrap_err();
    assert!(err.to_string().contains("killed by a signal"));
}

#[test]
fn work_done_here_names_this_crate() {
    let p = Provenance {
        operation: "decode".to_string(),
        input: "a.flac".to_string(),
        output: "a.wav".to_string(),
        agent: Agent::in_process(),
    };
    assert_eq!(
        p.render(),
        format!("decode: a.flac -> a.wav\n  in-process (lh-core {CRATE_VERSION})\n")
    );
}
