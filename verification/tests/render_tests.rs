use broadcast_core::render::PasteRenderer;

fn chunks(mut r: PasteRenderer) -> Vec<String> {
    let mut out = Vec::new();
    while let Some(c) = r.next_chunk() {
        out.push(c);
    }
    out
}

#[test]
fn template_without_marker_passes_through() {
    let r = PasteRenderer::new(&Vec::new(), "<html><body>plain</body></html>");
    assert_eq!(chunks(r), vec!["<html><body>plain</body></html>"]);
}

#[test]
fn markers_substitute_escaped_arguments() {
    let args = vec![String::from("<script>"), String::from("a&b")];
    let r = PasteRenderer::new(&args, "head \\! middle \\! tail");
    assert_eq!(
        chunks(r),
        vec!["head ", "&lt;script&gt;", " middle ", "a&amp;b", " tail"]
    );
}

#[test]
fn every_escaped_character_is_rewritten() {
    let args = vec![String::from("<>&\"'/")];
    let r = PasteRenderer::new(&args, "\\!");
    assert_eq!(chunks(r), vec!["", "&lt;&gt;&amp;&quot;&#x27;&#x2f;", ""]);
}

#[test]
fn template_text_is_not_escaped() {
    let args = vec![String::from("x")];
    let r = PasteRenderer::new(&args, "<b>\\!</b>");
    assert_eq!(chunks(r), vec!["<b>", "x", "</b>"]);
}

#[test]
fn extra_arguments_stay_unconsumed() {
    let args = vec![String::from("used"), String::from("spare")];
    let r = PasteRenderer::new(&args, "a\\!b");
    assert_eq!(chunks(r), vec!["a", "used", "b"]);
}

#[test]
fn sequence_is_exhausted_once() {
    let args = vec![String::from("v")];
    let mut r = PasteRenderer::new(&args, "x\\!y");
    assert!(r.next_chunk().is_some());
    assert!(r.next_chunk().is_some());
    assert!(r.next_chunk().is_some());
    assert!(r.next_chunk().is_none());
    assert!(r.next_chunk().is_none());
}

#[test]
fn backslash_without_bang_is_literal() {
    let r = PasteRenderer::new(&Vec::new(), "a\\b\\c");
    assert_eq!(chunks(r), vec!["a\\b\\c"]);
}
