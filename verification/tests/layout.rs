use animfetch::anim::Animation;
use animfetch::config::Config;
use animfetch::fetch::Item;
use animfetch::layout::{layout_fits, Fetch, Layout, Split};

fn animation() -> Animation {
    let frames = vec!["########\n########\n########\n########\n".to_string(), "####\n####\n".to_string()];
    match Animation::load(None, Some(frames), "box", None) {
        Ok(a) => a,
        Err(e) => panic!("{}", e.message()),
    }
}

#[test]
fn the_split_leaves_the_scrolling_area_its_rows() {
    assert_eq!(Split::budget(40), 22);
    assert_eq!(Split::budget(6), 1);
    assert_eq!(Split::budget(3), 1);
    let s = Split::new(30, 40).unwrap();
    assert_eq!((s.pane_h, s.scroll_top), (30, 32));
    let s = Split::new(50, 20).unwrap();
    assert_eq!((s.pane_h, s.scroll_top), (15, 17));
    assert!(Split::new(3, 5).is_none());
    assert!(Split::new(0, 40).is_none());
}

#[test]
fn a_narrow_terminal_drops_the_art() {
    let anim = animation();
    let cfg = Config::default();
    let items = vec![Item { label: "OS", value: "Arch".into() }];
    let fetch = Fetch { animation: &anim, cfg: &cfg, title: "me@box", items: &items };
    let layout = Layout::still(&fetch, 30, 24);
    let scene = layout.scene(7);
    assert_eq!(scene.art_w, 0);
    assert!(scene.art.is_empty());
    assert_eq!(scene.width, 30);
}

#[test]
fn a_wide_terminal_scales_every_frame_and_cycles_them() {
    let anim = animation();
    let cfg = Config::default();
    let items = vec![Item { label: "OS", value: "Arch".into() }];
    let fetch = Fetch { animation: &anim, cfg: &cfg, title: "me@box", items: &items };
    let layout = Layout::pinned(&fetch, 100, 40);
    let first = layout.scene(0);
    assert_eq!(first.art_w, 8);
    // Half blocks: two source rows per line, so the 4-row canvas keeps 4 lines.
    assert_eq!(first.art.len(), 4);
    assert!(first.art.iter().all(|l| l == "████████"));
    assert_eq!(layout.scene(1).art.len(), 4);
    assert_eq!(layout.scene(2).art, first.art);
    let split = Split::fit(&layout, &cfg, 40).unwrap();
    assert_eq!((split.pane_h, split.scroll_top), (4, 6));
    assert_eq!(Layout::still(&fetch, 100, 40).scene(1).art, first.art);
}

#[test]
fn only_a_gap_that_overflows_beside_the_info_pane_is_refused() {
    let anim = animation();
    let items = vec![Item { label: "OS", value: "Arch".into() }];
    // "OS: Arch" is eight columns, under the pane's share of 80.
    let huge = Config { gap: usize::MAX - 8, ..Config::default() };
    let fetch = Fetch { animation: &anim, cfg: &huge, title: "me", items: &items };
    assert!(layout_fits(&fetch, 80));
    let over = Config { gap: usize::MAX - 7, ..Config::default() };
    let fetch = Fetch { animation: &anim, cfg: &over, title: "me", items: &items };
    assert!(!layout_fits(&fetch, 80));
    // Too narrow for art: nothing is added up.
    assert!(layout_fits(&fetch, 39));
}
