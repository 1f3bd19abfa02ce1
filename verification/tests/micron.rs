use ratspeak_nomad::{micron_to_html, DIVIDER_RUN};

#[test]
fn renders_heading_levels() {
    assert_eq!(micron_to_html(b">H1"), "<h1>H1</h1>\n");
    assert_eq!(micron_to_html(b">>H2"), "<h2>H2</h2>\n");
    assert_eq!(micron_to_html(b">>>H3"), "<h3>H3</h3>\n");
}

#[test]
fn renders_plain_paragraph() {
    assert_eq!(micron_to_html(b"hello world"), "<p>hello world</p>\n");
}

#[test]
fn renders_bold_and_underline_toggle_spans() {
    assert_eq!(
        micron_to_html(b"`!bold`! plain `_under`_"),
        "<p><span style=\"font-weight:bold\">bold</span> plain <span style=\"text-decoration:underline\">under</span></p>\n"
    );
}

#[test]
fn renders_foreground_color_span() {
    assert_eq!(
        micron_to_html(b"`Ff00red`f"),
        "<p><span style=\"color:#ff0000\">red</span></p>\n"
    );
}

#[test]
fn renders_divider() {
    assert_eq!(micron_to_html(b"-"), "<hr>\n");
}

#[test]
fn divider_with_glyph_repeats_that_glyph() {
    let html = micron_to_html("-\u{223f}".as_bytes());
    assert!(html.contains("mu-divider"), "got: {html}");
    assert_eq!(html.matches('\u{223f}').count(), DIVIDER_RUN, "got: {html}");
    assert!(!html.contains("<hr>"), "should not collapse to <hr>: {html}");
}

#[test]
fn long_divider_uses_default_glyph() {
    let html = micron_to_html(b"---");
    assert_eq!(html.matches('\u{2500}').count(), DIVIDER_RUN, "got: {html}");
    assert!(!html.contains("<hr>"), "should not collapse to <hr>: {html}");
}

#[test]
fn divider_glyph_is_escaped() {
    let html = micron_to_html(b"-<");
    assert!(!html.contains(" <<"), "unescaped glyph: {html}");
    assert!(html.contains("&lt;"), "got: {html}");
}

#[test]
fn leading_backslash_escapes_formatting() {
    assert_eq!(
        micron_to_html(b"\\`!literal backtick"),
        "<p>`!literal backtick</p>\n"
    );
}

#[test]
fn mid_line_backslash_escapes_next_char() {
    assert_eq!(micron_to_html(b"a\\`!b"), "<p>a`!b</p>\n");
}

#[test]
fn leading_backslash_defuses_line_markers() {
    assert_eq!(micron_to_html(b"\\# not a comment"), "<p># not a comment</p>\n");
    assert_eq!(micron_to_html(b"\\>not a heading"), "<p>&gt;not a heading</p>\n");
}

#[test]
fn anchor_does_not_leak_name_into_text() {
    let html = micron_to_html(b"`:myanchor jump target");
    assert!(html.contains("id=\"myanchor\""), "got: {html}");
    assert!(
        !html.contains(">myanchor"),
        "anchor name leaked into text: {html}"
    );
    assert!(html.contains("jump target"), "got: {html}");
}

#[test]
fn anchor_name_is_escaped() {
    let html = micron_to_html(b"`:a-b_1 text");
    assert!(html.contains("id=\"a-b_1\""), "got: {html}");
}

#[test]
fn partial_renders_placeholder_not_garbage() {
    let html = micron_to_html(b"`{/page/live.mu`5`pid=x}");
    assert!(html.contains("mu-partial"), "got: {html}");
    assert!(html.contains('\u{29d6}'), "missing placeholder glyph: {html}");
    assert!(
        html.contains("data-partial-url=\"/page/live.mu\""),
        "got: {html}"
    );
    assert!(html.contains("data-partial-refresh=\"5\""), "got: {html}");
    assert!(!html.contains("id=x}"), "raw field text leaked: {html}");
}

#[test]
fn partial_without_refresh_or_fields() {
    let html = micron_to_html(b"`{/page/x.mu}");
    assert!(html.contains("data-partial-url=\"/page/x.mu\""), "got: {html}");
    assert!(!html.contains("data-partial-refresh"), "got: {html}");
}

#[test]
fn leading_angle_bracket_consumed_as_depth_reset() {
    assert_eq!(micron_to_html(b"<reset depth"), "<p>reset depth</p>\n");
}

#[test]
fn renders_link() {
    assert_eq!(
        micron_to_html(b"`[Click here`/page/other.mu]"),
        "<p><a href=\"/page/other.mu\">Click here</a></p>\n"
    );
}

#[test]
fn renders_link_without_label_uses_url_as_label() {
    assert_eq!(
        micron_to_html(b"`[/page/other.mu]"),
        "<p><a href=\"/page/other.mu\">/page/other.mu</a></p>\n"
    );
}

#[test]
fn renders_simple_table_with_header() {
    let mu = b"`t\nName|Hops\n-|-\nAlice|2\n`t";
    let html = micron_to_html(mu);
    assert!(html.contains("<thead><tr><th>Name</th><th>Hops</th></tr></thead>"));
    assert!(html.contains("<tr><td>Alice</td><td>2</td></tr>"));
}

#[test]
fn skips_comment_lines() {
    assert_eq!(micron_to_html(b"# a comment\nreal text"), "<p>real text</p>\n");
}

#[test]
fn renders_literal_block_unparsed() {
    assert_eq!(
        micron_to_html(b"`=\n`!not bold`!\n`="),
        "<pre>`!not bold`!\n</pre>\n"
    );
}

#[test]
fn escapes_markup_in_ordinary_text() {
    let html = micron_to_html(b"x <script>alert(1)</script> <img src=x onerror=alert(2)>");
    assert!(!html.contains("<script"), "raw <script> survived: {html}");
    assert!(!html.contains("<img"), "raw <img> survived: {html}");
    assert!(html.contains("&lt;script&gt;"));
}

#[test]
fn leading_angle_bracket_is_depth_reset_and_stays_inert() {
    let html = micron_to_html(b"<script>alert(1)</script>");
    assert!(!html.contains("<script"), "raw <script> survived: {html}");
    assert!(html.contains("script&gt;alert(1)&lt;/script&gt;"), "got: {html}");
}

#[test]
fn escapes_markup_in_heading() {
    let html = micron_to_html(b"><script>alert(1)</script>");
    assert!(!html.contains("<script"), "raw <script> survived: {html}");
}

#[test]
fn truecolor_directive_cannot_break_out_of_style_attribute() {
    let html = micron_to_html(b"`FT\"><img PWNED");
    assert!(!html.contains("<img"), "attribute injection: {html}");
    assert!(!html.contains("\"><"), "attribute injection: {html}");
}

#[test]
fn truecolor_directive_still_accepts_valid_hex() {
    assert_eq!(
        micron_to_html(b"`FT00ff00green"),
        "<p><span style=\"color:#00ff00\">green</span></p>\n"
    );
}

#[test]
fn rejects_script_bearing_link_schemes() {
    for mu in [
        &b"`[x`javascript:alert(1)]"[..],
        &b"`[x`JaVaScRiPt:alert(1)]"[..],
        &b"`[x`java\tscript:alert(1)]"[..],
        &b"`[x`data:text/html,<script>alert(1)</script>]"[..],
        &b"`[x`vbscript:msgbox]"[..],
    ] {
        let html = micron_to_html(mu);
        assert!(
            html.contains("href=\"#blocked\""),
            "dangerous scheme not blocked for {:?}: {html}",
            String::from_utf8_lossy(mu)
        );
    }
}

#[test]
fn rewrites_hash_colon_cross_node_link() {
    let html = micron_to_html(
        b"`[Other`a1b2c3d4e5f6a7b8c9d0e1f2a3b4c5d6:/page/index.mu]",
    );
    assert!(
        html.contains("href=\"nomad://a1b2c3d4e5f6a7b8c9d0e1f2a3b4c5d6/page/index.mu\""),
        "got: {html}"
    );
}

#[test]
fn rewrites_nomadnetwork_scheme_cross_node_link() {
    let html = micron_to_html(
        b"`[Other`nomadnetwork://a1b2c3d4e5f6a7b8c9d0e1f2a3b4c5d6/page/index.mu]",
    );
    assert!(
        html.contains("href=\"nomad://a1b2c3d4e5f6a7b8c9d0e1f2a3b4c5d6/page/index.mu\""),
        "got: {html}"
    );
}

#[test]
fn cross_node_link_without_leading_slash_gets_one() {
    let html =
        micron_to_html(b"`[Other`a1b2c3d4e5f6a7b8c9d0e1f2a3b4c5d6:page/index.mu]");
    assert!(
        html.contains("href=\"nomad://a1b2c3d4e5f6a7b8c9d0e1f2a3b4c5d6/page/index.mu\""),
        "got: {html}"
    );
}

#[test]
fn non_hash_scheme_like_targets_are_left_alone() {
    assert!(micron_to_html(b"`[m`mailto:a@b.c]").contains("href=\"mailto:a@b.c\""));
    assert!(
        micron_to_html(b"`[h`https://example.org/a]")
            .contains("href=\"https://example.org/a\"")
    );
}

#[test]
fn rewrites_same_node_colon_prefixed_link() {
    let html = micron_to_html(b"`[Main page`:/page/index.mu]");
    assert!(html.contains("href=\"/page/index.mu\""), "got: {html}");
    assert!(!html.contains("\":/page"), "leading colon survived: {html}");
}

#[test]
fn rewrites_cross_node_colon_prefixed_link() {
    let html = micron_to_html(
        b"`[The Library`a2d4202e63899b472449c27d3e951257:/page/index.mu]",
    );
    assert!(
        html.contains("href=\"nomad://a2d4202e63899b472449c27d3e951257/page/index.mu\""),
        "got: {html}"
    );
}

#[test]
fn bare_hash_link_uses_default_path() {
    let html = micron_to_html(b"`[3881f480a71de26a8c2e6d637220f384]");
    assert!(
        html.contains("href=\"nomad://3881f480a71de26a8c2e6d637220f384/page/index.mu\""),
        "got: {html}"
    );
}

#[test]
fn leaves_non_conforming_link_targets_untouched() {
    assert!(micron_to_html(b"`[lxmf@7874a9d887f1d967b397d7577b47bdb8]")
        .contains("href=\"lxmf@7874a9d887f1d967b397d7577b47bdb8\""));
    assert!(micron_to_html(b"`[RT Radio`:https://codeberg.org/x]")
        .contains("href=\":https://codeberg.org/x\""));
}

#[test]
fn keeps_ordinary_link_targets_intact() {
    assert!(micron_to_html(b"`[x`/page/a.mu]").contains("href=\"/page/a.mu\""));
    assert!(micron_to_html(b"`[x`https://example.org/a]").contains("href=\"https://example.org/a\""));
}

#[test]
fn renders_nomad_core_generated_index_empty() {
    let mu = b">Pages\n\nNo pages have been published yet.\n";
    let html = micron_to_html(mu);
    assert_eq!(
        html,
        "<h1>Pages</h1>\n<p>No pages have been published yet.</p>\n"
    );
}

#[test]
fn renders_nomad_core_generated_index_with_pages() {
    let mu = b">Pages\n\n`[index.mu`/page/index.mu]\n`[about.mu`/page/about.mu]\n";
    let html = micron_to_html(mu);
    assert_eq!(
        html,
        "<h1>Pages</h1>\n\
         <p><a href=\"/page/index.mu\">index.mu</a></p>\n\
         <p><a href=\"/page/about.mu\">about.mu</a></p>\n"
    );
}
