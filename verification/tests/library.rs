use ratspeak_nomad::blocks::{heading_depth, render_divider, render_partial, render_table};
use ratspeak_nomad::browser::{CONTENT_TYPE_BINARY, CONTENT_TYPE_HTML};
use ratspeak_nomad::fetch::{add_field, percent_decode};
use ratspeak_nomad::inline::{align_attr, flush, parse_inline, read_color};
use ratspeak_nomad::links::{rewrite_cross_node_url, sanitize_url};
use ratspeak_nomad::refresh::parses_at_least_one;
use ratspeak_nomad::text::html_escape;
use ratspeak_nomad::{
    classify, encode_form_payload, micron_text_to_html, micron_to_html, parse_identity_hash, to_response, wrap_html,
    Align, FetchedContent, InlineState, DIVIDER_RUN,
};

fn chars(s: &str) -> Vec<char> {
    s.chars().collect()
}

const OWN_TAGS: [&str; 18] = [
    "p", "h1", "h2", "h3", "h4", "h5", "h6", "span", "a", "hr", "div", "pre", "table", "thead",
    "tbody", "tr", "th", "td",
];

/// Every `<` in `html` opens or closes one of the renderer's own tags.
fn only_own_tags(html: &str) -> bool {
    let c: Vec<char> = html.chars().collect();
    (0..c.len()).filter(|&i| c[i] == '<').all(|i| {
        let rest: String = c[i + 1..].iter().collect();
        let rest = rest.strip_prefix('/').unwrap_or(&rest);
        OWN_TAGS.iter().any(|t| {
            rest.starts_with(t) && matches!(rest[t.len()..].chars().next(), Some('>') | Some(' '))
        })
    })
}

fn std_parses_at_least_one(s: &str) -> bool {
    s.parse::<f64>().is_ok_and(|r| r >= 1.0)
}

// --- Whole-page rendering --------------------------------------------------

#[test]
fn hostile_pages_only_produce_own_tags() {
    let pages: [&[u8]; 12] = [
        b"<script>alert(1)</script>",
        b"x <img src=x onerror=alert(1)>",
        b"><iframe>",
        b"`FT\"><img a",
        b"`[<b>`javascript:<svg>]",
        b"`:<x> tail",
        b"`{<a>`<b>`<c>}",
        b"`t\n<x>|<y>\n-|-\n<z>|w\n`t",
        b"`=\n<script>\n`=",
        b"-<",
        b"\\<style>",
        b"`B<<<`F\"x\"text",
    ];
    for page in pages {
        let html = micron_to_html(page);
        assert!(only_own_tags(&html), "foreign markup in {html:?}");
    }
}

#[test]
fn crlf_line_endings_are_stripped() {
    assert_eq!(micron_to_html(b"a\r\nb\r\n"), "<p>a</p>\n<p>b</p>\n");
}

#[test]
fn deep_heading_is_capped_at_six() {
    assert_eq!(micron_to_html(b">>>>>>>>x"), "<h6>x</h6>\n");
}

#[test]
fn lone_heading_marker_is_text() {
    assert_eq!(micron_to_html(b">"), "<p>&gt;</p>\n");
}

#[test]
fn aligned_paragraph_and_heading() {
    assert_eq!(
        micron_to_html(b"`ccentered"),
        "<p style=\"text-align:center\">centered</p>\n"
    );
    assert_eq!(
        micron_to_html(b">`rTitle"),
        "<h1 style=\"text-align:right\">Title</h1>\n"
    );
    assert_eq!(micron_to_html(b"`c`amiddle"), "<p>middle</p>\n");
}

#[test]
fn blank_lines_are_skipped() {
    assert_eq!(micron_to_html(b"a\n   \n\nb"), "<p>a</p>\n<p>b</p>\n");
}

#[test]
fn table_left_open_is_closed_at_the_end() {
    assert_eq!(
        micron_to_html(b"`t\na|b"),
        "<table>\n<tbody>\n<tr><td>a</td><td>b</td></tr>\n</tbody></table>\n"
    );
}

#[test]
fn empty_table_renders_nothing() {
    assert_eq!(micron_to_html(b"`t\n`t"), "");
}

#[test]
fn literal_block_left_open_stays_open() {
    assert_eq!(micron_to_html(b"`=\n<x>"), "<pre>&lt;x&gt;\n");
}

#[test]
fn invalid_utf8_becomes_replacement_character() {
    assert_eq!(micron_to_html(&[b'f', 0xff, b'g']), "<p>f\u{fffd}g</p>\n");
}

#[test]
fn broken_partials_fall_back_to_inline_text() {
    assert_eq!(micron_to_html(b"`{abc"), "<p>abc</p>\n");
    assert_eq!(micron_to_html(b"`{}"), "<p>}</p>\n");
}

#[test]
fn unicode_anchor_names_are_kept() {
    let html = micron_to_html("`:\u{fc}ber1 x".as_bytes());
    assert!(html.contains("id=\"\u{fc}ber1\""), "got: {html}");
    let html = micron_to_html(b"`:! x");
    assert!(!html.contains("mu-anchor"), "got: {html}");
}

// --- Blocks -----------------------------------------------------------------

#[test]
fn divider_glyphs() {
    assert_eq!(render_divider(&chars("-")), "<hr>\n");
    let html = render_divider(&chars("-~"));
    assert_eq!(html.matches('~').count(), DIVIDER_RUN);
    let html = render_divider(&chars("-\u{7}"));
    assert_eq!(html.matches('\u{2500}').count(), DIVIDER_RUN);
    let html = render_divider(&chars("-\""));
    assert_eq!(html.matches("&quot;").count(), DIVIDER_RUN);
}

#[test]
fn heading_depth_counts_markers_before_text() {
    assert_eq!(heading_depth(&chars(">>x")), Some(2));
    assert_eq!(heading_depth(&chars(">>")), None);
    assert_eq!(heading_depth(&chars("x>")), None);
}

#[test]
fn partial_attributes() {
    assert_eq!(
        render_partial(&chars("/p.mu`1`a=b}")),
        Some(String::from(
            "<div class=\"mu-partial\" data-partial-url=\"/p.mu\" data-partial-refresh=\"1\" data-partial-fields=\"a=b\">\u{29d6}</div>\n"
        ))
    );
    assert_eq!(
        render_partial(&chars("/p.mu`0.5}")),
        Some(String::from(
            "<div class=\"mu-partial\" data-partial-url=\"/p.mu\">\u{29d6}</div>\n"
        ))
    );
    assert_eq!(
        render_partial(&chars("\"x`\"`<}")),
        Some(String::from(
            "<div class=\"mu-partial\" data-partial-url=\"&quot;x\" data-partial-fields=\"&lt;\">\u{29d6}</div>\n"
        ))
    );
    assert_eq!(render_partial(&chars("}")), None);
    assert_eq!(render_partial(&chars("/p.mu")), None);
}

#[test]
fn refresh_threshold_matches_float_parsing() {
    let cases = [
        "1", "0", "0.5", "1.0", "1.", ".5", "+1", "-1", "1e0", "1E+0", "10e-1", "0.1e1", "1e-1",
        "inf", "INF", "Infinity", "+inf", "-inf", "nan", "NaN", "", ".", "e1", "1e", "1x",
        "0.9999999999999999", "0.99999999999999995", "0.999999999999999944488848768742172978818416595458984375",
        "0.999999999999999944488848768742172978818416595458984374", "00001.0000", "5", " 5",
        "1_0", "0x10", "2e308", "1e-400", "999999999999999999999999",
    ];
    for s in cases {
        assert_eq!(
            parses_at_least_one(&chars(s)),
            std_parses_at_least_one(s),
            "refresh value {s:?}"
        );
    }
}

#[test]
fn table_header_needs_a_separator_row() {
    let rows = vec![chars("|a|b|"), chars(":-:|--"), chars(" c | d ")];
    assert_eq!(
        render_table(&rows),
        "<table>\n<thead><tr><th>a</th><th>b</th></tr></thead>\n<tbody>\n<tr><td>c</td><td>d</td></tr>\n</tbody></table>\n"
    );
    let rows = vec![chars("a"), chars("-|x"), chars("|")];
    assert_eq!(
        render_table(&rows),
        "<table>\n<tbody>\n<tr><td>a</td></tr>\n<tr><td>-</td><td>x</td></tr>\n</tbody></table>\n"
    );
    let rows = vec![chars("a"), chars("")];
    assert_eq!(
        render_table(&rows),
        "<table>\n<tbody>\n<tr><td>a</td></tr>\n</tbody></table>\n"
    );
}

// --- Inline -------------------------------------------------------------------

#[test]
fn colour_codes() {
    assert_eq!(read_color(&chars("T00ff00x")), (Some(String::from("#00ff00")), 7));
    assert_eq!(read_color(&chars("T\"><img")), (None, 7));
    assert_eq!(read_color(&chars("abc")), (Some(String::from("#aabbcc")), 3));
    assert_eq!(read_color(&chars("g50")), (Some(String::from("rgb(128,128,128)")), 3));
    assert_eq!(read_color(&chars("g99")), (Some(String::from("rgb(255,255,255)")), 3));
    assert_eq!(read_color(&chars("g+5")), (Some(String::from("rgb(12,12,12)")), 3));
    assert_eq!(read_color(&chars("g0a")), (None, 0));
    assert_eq!(read_color(&chars("zz")), (None, 0));
    assert_eq!(read_color(&chars("T12")), (None, 0));
}

#[test]
fn colour_codes_never_carry_markup() {
    for code in ["T\"<>\"<>", "\"<>", "g\"<", "T12345\"", "<<<", "&&&"] {
        let (css, _) = read_color(&chars(code));
        if let Some(css) = css {
            assert!(!css.contains(['"', '<', '>', '&']), "{code:?} gave {css:?}");
        }
    }
}

#[test]
fn inline_state_css_lists_declarations_in_order() {
    let mut st = InlineState {
        bold: true,
        underline: true,
        italic: true,
        fg: Some(String::from("#fff")),
        bg: Some(String::from("#000")),
    };
    assert_eq!(
        st.css(),
        "font-weight:bold;font-style:italic;text-decoration:underline;color:#fff;background-color:#000"
    );
    st.reset();
    assert_eq!(st.css(), "");
    assert_eq!(InlineState::new().css(), "");
}

#[test]
fn flush_writes_pending_text_once() {
    let mut out = String::from("x");
    let mut part = String::new();
    flush(&mut out, &mut part, &InlineState::new());
    assert_eq!(out, "x");
    let mut part = String::from("<a>");
    flush(&mut out, &mut part, &InlineState::new());
    assert_eq!(out, "x&lt;a&gt;");
    assert_eq!(part, "");
    let mut st = InlineState::new();
    st.italic = true;
    let mut part = String::from("i");
    flush(&mut out, &mut part, &st);
    assert_eq!(out, "x&lt;a&gt;<span style=\"font-style:italic\">i</span>");
}

#[test]
fn inline_alignment_is_the_last_directive() {
    assert_eq!(parse_inline(&chars("`ca`rb"), false), (String::from("ab"), Some(Align::Right)));
    assert_eq!(parse_inline(&chars("`la`a"), false), (String::from("a"), None));
    assert_eq!(parse_inline(&chars("`c"), true), (String::from("`c"), None));
}

#[test]
fn align_attribute_text() {
    assert_eq!(align_attr(Some(Align::Left)), " style=\"text-align:left\"");
    assert_eq!(align_attr(None), "");
}

#[test]
fn escaping_is_inert() {
    assert_eq!(
        html_escape(&chars("<a href=\"x\">&amp;'")),
        "&lt;a href=&quot;x&quot;&gt;&amp;amp;'"
    );
}

// --- Links --------------------------------------------------------------------

#[test]
fn script_schemes_are_blocked_after_normalising() {
    for url in [
        " javascript:x",
        "\u{1}\u{7f}JAVASCRIPT:x",
        "j a v a s c r i p t :x",
        "Data:text/html,x",
        "vbScript:x",
        "\u{2003}data:x",
    ] {
        assert_eq!(sanitize_url(&chars(url)), "#blocked", "{url:?}");
    }
    assert_eq!(sanitize_url(&chars("javascript")), "javascript");
    assert_eq!(sanitize_url(&chars("/page/x.mu")), "/page/x.mu");
}

#[test]
fn cross_node_targets() {
    let h = "a1b2c3d4e5f6a7b8c9d0e1f2a3b4c5d6";
    assert_eq!(rewrite_cross_node_url(&chars(&format!("{h}:"))), format!("nomad://{h}/page/index.mu"));
    assert_eq!(rewrite_cross_node_url(&chars(h)), format!("nomad://{h}/page/index.mu"));
    assert_eq!(rewrite_cross_node_url(&chars(&format!("{h}:x"))), format!("nomad://{h}/x"));
    assert_eq!(rewrite_cross_node_url(&chars(":/a:b")), ":/a:b");
    assert_eq!(rewrite_cross_node_url(&chars(":")), ":");
    assert_eq!(rewrite_cross_node_url(&chars("nomadnetwork://x")), "nomad://x");
    assert_eq!(rewrite_cross_node_url(&chars("A1B2C3D4E5F6A7B8C9D0E1F2A3B4C5D6")), "nomad://A1B2C3D4E5F6A7B8C9D0E1F2A3B4C5D6/page/index.mu");
    assert_eq!(rewrite_cross_node_url(&chars("a1b2")), "a1b2");
}

// --- Fetch and forms ------------------------------------------------------------

#[test]
fn classify_edge_cases() {
    assert_eq!(
        classify("/page/a.Mu", b"x".to_vec()),
        FetchedContent::Micron(b"x".to_vec())
    );
    assert_eq!(
        classify("noslash", b"x".to_vec()),
        FetchedContent::File { name: String::from("noslash"), bytes: b"x".to_vec() }
    );
    assert_eq!(
        classify("/dir.html/", b"x".to_vec()),
        FetchedContent::File { name: String::new(), bytes: b"x".to_vec() }
    );
}

#[test]
fn percent_decoding_edge_cases() {
    assert_eq!(percent_decode(b"%41+b"), "A b");
    assert_eq!(percent_decode(b"a%zzb"), "a%b");
    assert_eq!(percent_decode(b"a%4"), "a%");
    assert_eq!(percent_decode(b"%+f"), "\u{f}");
    assert_eq!(percent_decode(b"%-1"), "%");
    assert_eq!(percent_decode(b"%ff"), "\u{fffd}");
    assert_eq!(percent_decode(b"%C3%BC"), "\u{fc}");
}

fn decode_payload(bytes: &[u8]) -> rmpv::Value {
    rmpv::decode::read_value(&mut &bytes[..]).expect("valid msgpack")
}

#[test]
fn form_keys_are_distinct_and_in_first_seen_order() {
    let value = decode_payload(&encode_form_payload("b=1&&a=2&b=3&c&a="));
    assert_eq!(
        value,
        rmpv::Value::Map(vec![
            (rmpv::Value::from("b"), rmpv::Value::from("1,3")),
            (rmpv::Value::from("a"), rmpv::Value::from("2,")),
            (rmpv::Value::from("c"), rmpv::Value::from("")),
        ])
    );
}

#[test]
fn query_of_only_separators_has_no_payload() {
    assert_eq!(encode_form_payload("&&&"), Vec::<u8>::new());
}

// --- Responses ------------------------------------------------------------------

fn expected_page(fragment: &str) -> String {
    format!(
        "<!DOCTYPE html><html><head><meta charset=\"utf-8\">\
         <meta name=\"color-scheme\" content=\"dark\">\
         <style>\
         html,body{{background:#18171a!important;margin:0;padding:12px}}\
         body{{color:#f2eeea;font-family:ui-monospace,\"DejaVu Sans Mono\",\"Liberation Mono\",Menlo,Consolas,monospace;line-height:1}}\
         p,h1,h2,h3,h4,h5,h6,pre,.mu-divider{{margin:0;font-size:inherit;white-space:pre-wrap}}\
         .mu-field,.mu-submit{{font-family:inherit;font-size:inherit;line-height:1;background:#232227;color:inherit;border:1px solid #4a4850;border-radius:3px;padding:1px 4px}}.mu-submit{{cursor:pointer}}.mu-submit:hover{{background:#2d2c33}}.mu-field-label{{cursor:pointer}}.mu-field-label input{{margin-right:4px}}\
         </style>\
         </head><body>{fragment}</body></html>"
    )
}

#[test]
fn wrapped_page_has_forced_dark_background() {
    assert_eq!(wrap_html("<p>x</p>\n"), expected_page("<p>x</p>\n").into_bytes());
    assert_eq!(wrap_html(""), expected_page("").into_bytes());
}

#[test]
fn responses_by_content_kind() {
    let r = to_response(FetchedContent::Html(b"<b>raw</b>".to_vec()));
    assert_eq!(r.content_type, CONTENT_TYPE_HTML);
    assert_eq!(r.body, b"<b>raw</b>".to_vec());
    assert_eq!(r.attachment_name, None);

    let r = to_response(FetchedContent::Micron(b">Hi".to_vec()));
    assert_eq!(r.content_type, "text/html; charset=utf-8");
    assert_eq!(r.body, expected_page("<h1>Hi</h1>\n").into_bytes());
    assert_eq!(r.attachment_name, None);

    let r = to_response(FetchedContent::File { name: String::from("f.bin"), bytes: vec![1, 2] });
    assert_eq!(r.content_type, CONTENT_TYPE_BINARY);
    assert_eq!(r.content_type, "application/octet-stream");
    assert_eq!(r.body, vec![1, 2]);
    assert_eq!(r.attachment_name, Some(String::from("f.bin")));
}

#[test]
fn identity_hash_parsing() {
    assert_eq!(
        parse_identity_hash("000102030405060708090a0b0c0d0e0f"),
        Ok([0, 1, 2, 3, 4, 5, 6, 7, 8, 9, 10, 11, 12, 13, 14, 15])
    );
    assert_eq!(
        parse_identity_hash("FFfe0102030405060708090A0B0C0D0E"),
        Ok([255, 254, 1, 2, 3, 4, 5, 6, 7, 8, 9, 10, 11, 12, 13, 14])
    );
    assert_eq!(
        parse_identity_hash("0001"),
        Err(String::from("identity hash must be 16 bytes"))
    );
    assert_eq!(
        parse_identity_hash("000102030405060708090a0b0c0d0e0f00"),
        Err(String::from("identity hash must be 16 bytes"))
    );
    assert_eq!(parse_identity_hash("abc"), Err(String::from("invalid identity hash")));
    assert_eq!(
        parse_identity_hash("zz0102030405060708090a0b0c0d0e0f"),
        Err(String::from("invalid identity hash"))
    );
    assert_eq!(parse_identity_hash(""), Err(String::from("identity hash must be 16 bytes")));
}

#[test]
fn fields_merge_repeated_keys() {
    let mut fields: Vec<(String, String)> = Vec::new();
    add_field(&mut fields, String::from("k"), String::from("1"));
    add_field(&mut fields, String::from("j"), String::from(""));
    add_field(&mut fields, String::from("k"), String::from("2"));
    assert_eq!(
        fields,
        vec![
            (String::from("k"), String::from("1,2")),
            (String::from("j"), String::new()),
        ]
    );
}

#[test]
fn text_and_bytes_render_alike() {
    let page = ">T\n`=\n`!x\n`=\n`t\na|b\n`t\n-\n`[l`/p.mu] `:a-1 z";
    assert_eq!(micron_text_to_html(page), micron_to_html(page.as_bytes()));
    assert_eq!(
        micron_text_to_html("`:x_y-2! z"),
        "<p><a class=\"mu-anchor\" id=\"x_y-2\" aria-hidden=\"true\"></a>! z</p>\n"
    );
}

#[test]
fn pages_compose_line_by_line() {
    let parts = [">Title", "`!bold`! text", "-", "`[x`/p.mu]", "\\# kept", "# gone", "`{/p.mu}"];
    for a in parts {
        for b in parts {
            let joined = format!("{a}\n{b}");
            assert_eq!(
                micron_to_html(joined.as_bytes()),
                micron_to_html(a.as_bytes()) + &micron_to_html(b.as_bytes()),
                "{a:?} then {b:?}"
            );
        }
    }
}

#[test]
fn crlf_lines_render_as_lf_lines() {
    let lines = [">H", "`=", "x <y>", "`=", "`t", "a|b", "-|-", "c|d", "`t", "", "end"];
    assert_eq!(
        micron_to_html(lines.join("\r\n").as_bytes()),
        micron_to_html(lines.join("\n").as_bytes())
    );
}

fn unescape(t: &str) -> String {
    let mut out = String::new();
    let mut rest = t;
    while let Some(c) = rest.chars().next() {
        let mut matched = false;
        for (entity, ch) in [("&amp;", '&'), ("&lt;", '<'), ("&gt;", '>'), ("&quot;", '"')] {
            if rest.starts_with(entity) {
                out.push(ch);
                rest = &rest[entity.len()..];
                matched = true;
                break;
            }
        }
        if !matched {
            out.push(c);
            rest = &rest[c.len_utf8()..];
        }
    }
    out
}

#[test]
fn escaping_round_trips_and_leaves_plain_text() {
    for s in ["&amp;lt;", "<<\"&>>", "plain text", "", "&quot", "\u{fc}&\u{fc}"] {
        let e = html_escape(&chars(s));
        assert_eq!(unescape(&e), s);
        for (i, _) in e.match_indices('&') {
            let rest = &e[i..];
            assert!(
                ["&amp;", "&lt;", "&gt;", "&quot;"].iter().any(|x| rest.starts_with(x)),
                "{e:?}"
            );
        }
    }
    assert_eq!(html_escape(&chars("plain text")), "plain text");
}

#[test]
fn colour_code_shapes() {
    for code in ["T00ff00", "Tzz", "g5", "g50x", "abc", "ab", "", "g99", "T1234567", "xyz"] {
        let c = chars(code);
        let (css, used) = read_color(&c);
        assert!(used == 0 || used == 3 || used == 7);
        assert!(used <= c.len());
        if used == 0 {
            assert!(css.is_none());
        }
        if let Some(css) = css {
            assert!(css.chars().all(|x| x == '#' || x.is_ascii_hexdigit() || "rgb(,)".contains(x)));
        }
    }
}

#[test]
fn form_payload_bytes_follow_msgpack_headers() {
    let key = "k".repeat(40);
    let value = "v".repeat(300);
    let payload = encode_form_payload(&format!("{key}={value}"));
    let mut expected = vec![0x81, 0xd9, 40];
    expected.extend_from_slice(key.as_bytes());
    expected.extend_from_slice(&[0xda, 0x01, 0x2c]);
    expected.extend_from_slice(value.as_bytes());
    assert_eq!(payload, expected);

    let query: Vec<String> = (0..17).map(|i| format!("f{i:02}=")).collect();
    let payload = encode_form_payload(&query.join("&"));
    assert_eq!(&payload[..3], &[0xde, 0x00, 0x11]);
    assert_eq!(&payload[3..8], &[0xa3, b'f', b'0', b'0', 0xa0]);
    assert_eq!(payload.len(), 3 + 17 * 5);

    assert_eq!(encode_form_payload("\u{fc}=1"), vec![0x81, 0xa2, 0xc3, 0xbc, 0xa1, b'1']);
}

#[test]
fn inline_output_quotes_belong_to_markup() {
    let (html, _) = parse_inline(&chars("`F\"\" x `[\"q\"`\"u\"] `:n\" z"), false);
    assert!(!html.contains("=\"\""), "got: {html}");
    assert!(html.contains("&quot;"), "got: {html}");
}
