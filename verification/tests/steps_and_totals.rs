use web_radar::audit::{audit_step, Anchor, AuditAction, AuditEvent, AuditPhase, AuditState, IpAddress, ParsedUrl};
use web_radar::config::ResolvedTarget;
use web_radar::edges::{build_with_block_size, EdgeIndex};
use web_radar::inbound::csr_step;
use web_radar::ranks::slab_step;
use web_radar::reverse::{from_reverse, normalize_domain, to_reverse, to_reverse_keeping_www};
use web_radar::scan::{RunAction, RunEvent, RunPass, RunState};

fn edge_index(text: &str, block: u64) -> EdgeIndex {
    let (blocks, summary) = build_with_block_size(text.as_bytes(), block).expect("sample edges");
    EdgeIndex {
        blocks,
        block_bytes: block as u32,
        file_size: text.len() as u64,
        sorted_by_from: summary.sorted_by_from,
        estimated_edges: summary.estimated_edges,
    }
}

/// Every domain links to 40 distinct domains and 300 times to one more.
fn long_runs() -> String {
    let mut text = String::new();
    for from in 0..400u32 {
        for step in 0..40u32 {
            text.push_str(&format!("{from}\t{}\n", 100_000 + from * 40 + step));
        }
        for _ in 0..300 {
            text.push_str(&format!("{from}\t{}\n", 900_000 + from));
        }
    }
    text
}

#[test]
fn a_lone_quote_normalizes_to_nothing() {
    assert_eq!(normalize_domain("\""), "");
    assert_eq!(normalize_domain("  '  "), "");
    assert_eq!(to_reverse("'"), "");
    assert_eq!(normalize_domain("\"example.com\""), "example.com");
}

#[test]
fn every_run_is_found_whole_even_when_a_sample_lands_inside_it() {
    let source = long_runs();
    let index = edge_index(&source, 4 << 10);
    assert!(index.blocks.len() > 300, "samples must land inside runs");
    for id in 0..400u32 {
        let (destinations, truncated) = index.outbound(source.as_bytes(), id, 10_000).expect("outbound");
        assert!(!truncated);
        assert_eq!(destinations.len(), 41, "run of {id}");
        assert_eq!(destinations[0], 100_000 + id * 40, "first destination of {id}");
        assert_eq!(index.outbound_total(source.as_bytes(), id).expect("total"), 41);
    }
}

#[test]
fn the_total_counts_the_whole_run_when_the_list_is_cut() {
    let source = long_runs();
    let index = edge_index(&source, 64 << 10);
    let (destinations, truncated) = index.outbound(source.as_bytes(), 7, 5).expect("outbound");
    assert_eq!(destinations.len(), 5);
    assert!(truncated);
    assert_eq!(index.outbound_total(source.as_bytes(), 7).expect("total"), 41);
    assert_eq!(index.outbound_total(source.as_bytes(), 100_000).expect("absent"), 0);
}

#[test]
fn a_self_link_is_not_counted() {
    let source = "1\t1\n1\t2\n1\t2\n1\t3\n2\t1\n";
    let index = edge_index(source, 4 << 20);
    assert_eq!(index.outbound(source.as_bytes(), 1, 10).expect("outbound").0, vec![2, 3]);
    assert_eq!(index.outbound_total(source.as_bytes(), 1).expect("total"), 2);
}

#[test]
fn a_csr_step_past_the_last_id_stops() {
    let (next, written, offsets, sources, stop) = csr_step(8, 5, 2, 4, 8, vec![(9u64 << 32) | 1]);
    assert!(stop);
    assert_eq!((next, written), (8, 5));
    assert!(offsets.is_empty() && sources.is_empty());
}

#[test]
fn a_csr_step_gives_each_id_its_sorted_sources() {
    // Bucket 1 of span 4 covers ids 4..8; the capacity cuts it at 6.
    let records = vec![(5u64 << 32) | 9, (4u64 << 32) | 3, (5u64 << 32) | 2, (4u64 << 32) | 3];
    let (next, written, offsets, sources, stop) = csr_step(4, 10, 1, 4, 6, records);
    assert!(!stop);
    assert_eq!(next, 6);
    assert_eq!(offsets, vec![10, 11]);
    assert_eq!(sources, vec![3, 2, 9]);
    assert_eq!(written, 13);
}

#[test]
fn a_slab_step_pads_the_ids_before_the_partition() {
    let slab = vec![7u8; 32];
    let (bytes, next) = slab_step(3, 5, 7, slab.clone());
    assert_eq!(next, 7);
    assert_eq!(bytes.len(), 32 + 32);
    assert!(bytes[..32].iter().all(|b| *b == 0));
    assert_eq!(&bytes[32..], &slab[..]);
    let (bytes, next) = slab_step(5, 5, 6, vec![1u8; 16]);
    assert_eq!((bytes, next), (vec![1u8; 16], 6));
}

const VERTICES: &[u8] = b"0\tcom.aaa\t1\n1\tcom.bbb\t1\n2\torg.ccc\t1\n";
const EDGES_HEAD: &[u8] = b"0\t2\n1\t0\n";
const EDGES_TAIL: &[u8] = b"2\t0\n2\t2\n";

#[test]
fn the_run_reads_each_file_once_and_stops_when_nothing_is_left_to_find() {
    let targets = vec![
        ResolvedTarget { domain: "aaa.com".to_string(), reverse: "com.aaa".to_string() },
        ResolvedTarget { domain: "absent.example".to_string(), reverse: "example.absent".to_string() },
    ];
    let mut state = RunState::new(&targets);
    assert_eq!(state.pass, RunPass::Targets);
    // One target is absent, so the whole vertices file is read.
    assert_eq!(state.step(RunEvent::Chunk(VERTICES)), RunAction::ReadMore);
    assert_eq!(state.step(RunEvent::End), RunAction::NextPass);
    assert_eq!(state.pass, RunPass::Edges);
    assert_eq!(state.ordered, vec![(0, "com.aaa".to_string())]);

    assert_eq!(state.step(RunEvent::Chunk(EDGES_HEAD)), RunAction::ReadMore);
    assert_eq!(state.step(RunEvent::Chunk(EDGES_TAIL)), RunAction::ReadMore);
    assert_eq!(state.step(RunEvent::End), RunAction::NextPass);
    assert_eq!(state.pass, RunPass::Names);
    let (mut sources, destinations) = state.lists[0].clone();
    sources.sort();
    assert_eq!(sources, vec![1, 2]);
    assert_eq!(destinations, vec![2]);
    assert_eq!(state.needed.len(), 2);

    // Both neighbours are named in the first chunk: the pass ends early.
    assert_eq!(state.step(RunEvent::Chunk(VERTICES)), RunAction::NextPass);
    assert_eq!(state.pass, RunPass::Ranks);
    assert_eq!(state.needed_revs.len(), 3);
    assert!(state.needed_revs.contains("com.aaa") && state.needed_revs.contains("org.ccc"));

    assert_eq!(state.step(RunEvent::RanksFound(2)), RunAction::ReadMore);
    assert_eq!(state.step(RunEvent::RanksFound(3)), RunAction::Finish);
    assert_eq!(state.pass, RunPass::Done);
    assert_eq!(state.step(RunEvent::End), RunAction::Finish);
}

#[test]
fn a_run_that_finds_no_target_finishes_after_vertices() {
    let targets = vec![ResolvedTarget { domain: "absent.example".to_string(), reverse: "example.absent".to_string() }];
    let mut state = RunState::new(&targets);
    assert_eq!(state.step(RunEvent::Chunk(VERTICES)), RunAction::ReadMore);
    assert_eq!(state.step(RunEvent::End), RunAction::Finish);
    assert_eq!(state.pass, RunPass::Done);
}

#[test]
fn a_target_without_neighbours_skips_the_names_pass() {
    let targets = vec![ResolvedTarget { domain: "bbb.com".to_string(), reverse: "com.bbb".to_string() }];
    let mut state = RunState::new(&targets);
    // The only target is found in the first chunk: the vertices pass ends early.
    assert_eq!(state.step(RunEvent::Chunk(VERTICES)), RunAction::NextPass);
    assert_eq!(state.step(RunEvent::Chunk(b"0\t2\n2\t0\n")), RunAction::ReadMore);
    assert_eq!(state.step(RunEvent::End), RunAction::NextPass);
    assert_eq!(state.pass, RunPass::Ranks);
    assert_eq!(state.needed_revs.len(), 1);
}


fn page_url(url: &str, host: &str, path: &str) -> AuditEvent {
    AuditEvent::Parsed(Ok(ParsedUrl {
        url: url.to_string(),
        scheme: "https".to_string(),
        host: Some(host.to_string()),
        path: path.to_string(),
    }))
}

fn public() -> AuditEvent {
    AuditEvent::Resolved(Ok(vec![IpAddress::V4(93, 184, 216, 34)]))
}

fn started(raw: &str) -> AuditState {
    AuditState::new(raw.to_string(), "example.com".to_string(), "Example".to_string())
}

#[test]
fn an_unparsable_url_is_invalid() {
    let (state, action) = audit_step(started("not a url"), AuditEvent::Parsed(Err("relative URL without a base".to_string())));
    assert_eq!(action, AuditAction::Finish);
    let page = state.result.expect("result");
    assert_eq!(page.status, "invalid");
    assert_eq!(page.note, "relative URL without a base");
    assert_eq!(page.url, "not a url");
}

#[test]
fn refused_urls_and_addresses_are_skipped() {
    let local = AuditEvent::Parsed(Ok(ParsedUrl {
        url: "http://LOCALHOST/".to_string(),
        scheme: "http".to_string(),
        host: Some("LOCALHOST".to_string()),
        path: "/".to_string(),
    }));
    let (state, action) = audit_step(started("http://LOCALHOST/"), local);
    assert_eq!(action, AuditAction::Finish);
    assert_eq!(state.result.as_ref().unwrap().status, "skipped");
    assert_eq!(state.result.as_ref().unwrap().note, "Local addresses are not allowed");

    let (state, action) = audit_step(started("https://blog.test/a"), page_url("https://blog.test/a", "blog.test", "/a"));
    assert_eq!((state.phase, action), (AuditPhase::Resolving, AuditAction::Resolve));
    let (state, _) = audit_step(state, AuditEvent::Resolved(Ok(vec![IpAddress::V4(192, 168, 1, 2)])));
    assert_eq!(state.result.as_ref().unwrap().note, "Private or local network addresses are not allowed");

    let (state, _) = audit_step(started("https://www.Shop.Example.com/"), page_url("https://www.shop.example.com/", "www.shop.example.com", "/"));
    let (state, action) = audit_step(state, public());
    assert_eq!(action, AuditAction::Finish);
    assert_eq!(state.result.as_ref().unwrap().note, "Target's own domain is excluded");
}

#[test]
fn robots_and_http_failures_are_reported_with_their_reason() {
    let (state, _) = audit_step(started("https://blog.test/private/x"), page_url("https://blog.test/private/x", "blog.test", "/private/x"));
    let (state, action) = audit_step(state, public());
    assert_eq!((state.phase, action), (AuditPhase::Robots, AuditAction::FetchRobots));
    let (state, _) = audit_step(state, AuditEvent::Robots(Some("User-agent: *\nDisallow: /private\n".to_string())));
    assert_eq!(state.result.as_ref().unwrap().status, "robots_blocked");

    let (state, _) = audit_step(started("https://www.blog.test/"), page_url("https://www.blog.test/", "www.blog.test", "/"));
    let (state, _) = audit_step(state, public());
    let (state, action) = audit_step(state, AuditEvent::Robots(None));
    assert_eq!((state.phase, action), (AuditPhase::Fetching, AuditAction::FetchPage));
    let (state, _) = audit_step(state, AuditEvent::Response(Ok((429, None))));
    let page = state.result.expect("result");
    assert_eq!(page.status, "blocked");
    assert_eq!(page.http_status, Some(429));
    assert_eq!(page.source_domain, "blog.test");
    assert_eq!(page.note, "Server returned HTTP 429; no bypass attempted");

    let (state, _) = audit_step(started("https://blog.test/"), page_url("https://blog.test/", "blog.test", "/"));
    let (state, _) = audit_step(state, public());
    let (state, _) = audit_step(state, AuditEvent::Robots(None));
    let (state, _) = audit_step(state, AuditEvent::Response(Ok((500, None))));
    let page = state.result.expect("result");
    assert_eq!((page.status.as_str(), page.note.as_str(), page.http_status), ("http_error", "HTTP 500", Some(500)));

    let (state, _) = audit_step(started("https://blog.test/"), page_url("https://blog.test/", "blog.test", "/"));
    let (state, _) = audit_step(state, public());
    let (state, _) = audit_step(state, AuditEvent::Robots(None));
    let (state, _) = audit_step(state, AuditEvent::Response(Ok((200, Some(3 << 20)))));
    assert_eq!(state.result.as_ref().unwrap().status, "too_large");
}

#[test]
fn a_page_read_is_audited_with_its_links_and_mentions() {
    let (state, _) = audit_step(started("https://blog.test/post"), page_url("https://blog.test/post", "blog.test", "/post"));
    let (state, _) = audit_step(state, public());
    let (state, _) = audit_step(state, AuditEvent::Robots(None));
    let (state, action) = audit_step(state, AuditEvent::Response(Ok((200, None))));
    assert_eq!((state.phase, action), (AuditPhase::Reading, AuditAction::ReadBody));
    let (state, action) = audit_step(state, AuditEvent::Body(Ok(1000)));
    assert_eq!((state.phase, action), (AuditPhase::Parsing, AuditAction::ParseBody));
    let anchors = vec![
        Anchor { host: "www.example.com".to_string(), text: "  Example shop ".to_string(), rel: Some("nofollow".to_string()) },
        Anchor { host: "docs.example.com".to_string(), text: String::new(), rel: Some("nofollow".to_string()) },
        Anchor { host: "other.test".to_string(), text: "elsewhere".to_string(), rel: None },
    ];
    let event = AuditEvent::Page("A post".to_string(), anchors, "We love EXAMPLE and example.com".to_string());
    let (state, action) = audit_step(state, event);
    assert_eq!(action, AuditAction::Finish);
    let page = state.result.expect("result");
    assert_eq!(page.status, "audited");
    assert_eq!(page.http_status, Some(200));
    assert_eq!(page.source_domain, "blog.test");
    assert_eq!(page.url, "https://blog.test/post");
    assert_eq!(page.backlink_count, 2);
    assert!(page.has_backlink);
    assert_eq!(page.anchors, vec!["Example shop".to_string()]);
    assert_eq!(page.rel_values, vec!["nofollow".to_string()]);
    assert!(page.has_brand_mention && page.has_domain_mention);
    assert_eq!(page.note, "Fetched with robots.txt check and conservative limits");
}

#[test]
fn a_body_over_the_limit_is_not_parsed() {
    let (state, _) = audit_step(started("https://blog.test/"), page_url("https://blog.test/", "blog.test", "/"));
    let (state, _) = audit_step(state, public());
    let (state, _) = audit_step(state, AuditEvent::Robots(None));
    let (state, _) = audit_step(state, AuditEvent::Response(Ok((200, None))));
    let (state, action) = audit_step(state, AuditEvent::Body(Ok(2 * 1024 * 1024 + 1)));
    assert_eq!(action, AuditAction::Finish);
    assert_eq!(state.result.as_ref().unwrap().status, "too_large");
    let (state, action) = audit_step(state, AuditEvent::Body(Ok(1)));
    assert_eq!((state.phase, action), (AuditPhase::Done, AuditAction::Finish));
}

#[test]
fn a_normalized_name_keeps_the_shape_of_a_host() {
    assert_eq!(normalize_domain("  HTTPS://user:pw@WWW.Example.COM:8080/path?q=1#x "), "example.com");
    assert_eq!(normalize_domain("'//cdn.Example.org.'"), "cdn.example.org");
    // Two colons are left alone: an IPv6 host keeps them.
    assert_eq!(normalize_domain("[2001:db8::1]"), "[2001:db8::1]");
    for input in ["a@b@c.com", "x.com...", "www.", "host:1", "Ünïcode.COM", "\"", "::"] {
        let r = normalize_domain(input);
        assert!(!r.ends_with('.'), "{input:?} gave {r:?}");
        assert!(!r.contains(['/', '?', '#', '\\', '@']), "{input:?} gave {r:?}");
        assert!(!r.bytes().any(|b| b.is_ascii_uppercase()), "{input:?} gave {r:?}");
        assert_ne!(r.matches(':').count(), 1, "{input:?} gave {r:?}");
        assert!(input.to_ascii_lowercase().contains(r.as_str()), "{input:?} gave {r:?}");
    }
}

#[test]
fn reversing_a_host_as_it_stands_keeps_its_www_label() {
    assert_eq!(to_reverse_keeping_www("WWW.Example.COM"), "com.example.www");
    assert_eq!(to_reverse_keeping_www("Example.COM."), "com.example");
    assert_eq!(to_reverse_keeping_www("example.com"), "com.example");
    assert_eq!(to_reverse_keeping_www("en.wikipedia.org"), "org.wikipedia.en");
    assert_eq!(to_reverse_keeping_www("  a..b  "), "b.a");
    assert_eq!(to_reverse_keeping_www(""), "");
}

#[test]
fn a_normalized_name_comes_back_from_its_reverse_form() {
    for d in ["blog.example.co.uk", "example.com", "a.b.c.d.e"] {
        assert_eq!(normalize_domain(d), d);
        assert_eq!(from_reverse(&to_reverse(d)), d);
    }
    assert_eq!(from_reverse(""), "");
}

#[test]
fn outbound_over_pair_sorted_edges_is_ascending_and_capped() {
    let text = long_runs();
    for block in [7u64, 64, 4096] {
        let ix = edge_index(&text, block);
        for (id, limit) in [(0u32, 10_000usize), (137, 10_000), (399, 3), (250, 41), (5, 0)] {
            let (v, _) = ix.outbound(text.as_bytes(), id, limit).expect("sorted");
            assert!(v.len() <= limit);
            assert!(v.windows(2).all(|w| w[0] < w[1]));
        }
    }
}

#[test]
fn outbound_is_cut_only_when_more_lines_remain_than_the_cap() {
    let text = long_runs();
    let ix = edge_index(&text, 64);
    let (v, cut) = ix.outbound(text.as_bytes(), 0, 340).expect("sorted");
    assert!(!cut);
    assert_eq!(v.len(), 41);
    let (_, cut) = ix.outbound(text.as_bytes(), 0, 339).expect("sorted");
    assert!(cut);
}
