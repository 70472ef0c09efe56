use shitview::display::{
    blend, frame_fill, in_subtree, node_border, node_fill, palette, progress_status, signed_decimal, Rgba8,
};
use shitview::indexer::{IndexPhase, IndexProgress};

fn progress(phase: IndexPhase, resumed: bool) -> IndexProgress {
    IndexProgress { phase, generation: 12, indexed_nodes: 12_345, pending_directories: 7, issue_count: 1_000, resumed }
}

#[test]
fn status_lines_follow_the_phase() {
    let s = progress_status(&progress(IndexPhase::Paused, true));
    assert_eq!(s.title, "Index paused");
    assert!(s.indexing && s.paused);
    assert_eq!(s.detail, "12,345 nodes / 7 folders pending / 1,000 warnings / resumed");
    assert_eq!(s.node_metric, "12,345");
    assert_eq!(s.generation_metric, "GEN 12");
    let w = progress_status(&progress(IndexPhase::Watching, false));
    assert_eq!(w.title, "Index current / watching");
    assert!(!w.indexing && !w.paused);
    assert_eq!(w.detail, "12,345 nodes / 7 folders pending / 1,000 warnings");
    assert_eq!(progress_status(&progress(IndexPhase::CompleteWithWarnings, false)).title, "Index complete with warnings");
}

#[test]
fn signed_numbers() {
    assert_eq!(signed_decimal(-42), "-42");
    assert_eq!(signed_decimal(i64::MIN), "-9223372036854775808");
    assert_eq!(signed_decimal(0), "0");
}

#[test]
fn blending_mixes_by_opacity() {
    let bg = Rgba8 { r: 0x0d, g: 0x19, b: 0x15, a: 255 };
    let opaque = Rgba8 { r: 1, g: 2, b: 3, a: 255 };
    assert_eq!(blend(bg, opaque), opaque);
    let clear = Rgba8 { r: 200, g: 200, b: 200, a: 0 };
    assert_eq!(blend(bg, clear), bg);
    let half = Rgba8 { r: 255, g: 0, b: 100, a: 128 };
    let mix = |f: u32, b: u32| ((f * 128 + b * 127) / 255) as u8;
    assert_eq!(blend(bg, half), Rgba8 { r: mix(255, 0x0d), g: mix(0, 0x19), b: mix(100, 0x15), a: 255 });
    assert_eq!(blend(bg, half).r, 134);
}

#[test]
fn colours_come_from_the_palette() {
    assert_eq!(palette(0), (0x48, 0xe1, 0x91));
    assert_eq!(palette(7), (0x63, 0x9f, 0xdf));
    assert_eq!(node_fill((70, 60, 60), true), Rgba8 { r: 20, g: 32, b: 26, a: 220 });
    assert_eq!(node_fill((70, 60, 60), false).a, 178);
    assert_eq!(node_border((1, 2, 3)), Rgba8 { r: 1, g: 2, b: 3, a: 230 });
    assert_eq!(frame_fill((30, 30, 30), true), Rgba8 { r: 15, g: 18, b: 17, a: 0 });
    assert_eq!(frame_fill((30, 30, 30), false).a, 105);
}

#[test]
fn dragging_a_directory_moves_its_subtree() {
    assert!(in_subtree("synthetic:/project/module-00", "synthetic:/project/module-00"));
    assert!(in_subtree("synthetic:/project/module-00", "synthetic:/project/module-00/node-00013.rs"));
    assert!(!in_subtree("synthetic:/project/module-00", "synthetic:/project/module-001"));
    assert!(in_subtree("a/", "a/b"));
    assert!(!in_subtree("a/", "a"));
}
