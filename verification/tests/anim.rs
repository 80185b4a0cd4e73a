use animfetch::anim::{span, Animation, Entry, ErrorKind, Frame, Ink, list};

const RAMP: Ink<'static> = Ink::Ramp(&[' ', '░', '▒', '▓', '█']);

#[test]
fn spans_are_never_empty() {
    // Upscaling maps several output cells onto one source cell.
    for out in 1..40usize {
        for src in 1..40usize {
            for i in 0..out {
                let (a, b) = span(i, out, src);
                assert!(b > a, "empty span for i={i} out={out} src={src}");
                assert!(b <= src);
            }
        }
    }
}

#[test]
fn solid_block_stays_solid_at_any_size() {
    let frame = Frame::parse("####\n####\n####\n####\n");
    for (w, h) in [(2, 2), (4, 4), (9, 7), (1, 1)] {
        let out = frame.scale(w, h, RAMP);
        assert_eq!(out.len(), h);
        assert!(
            out.iter().all(|l| l.chars().all(|c| c == '█')),
            "{w}x{h} produced {out:?}"
        );
    }
}

#[test]
fn thin_stroke_survives_downscaling() {
    // Nearest-neighbour would drop most of this diagonal.
    let mut rows = vec![vec!['.'; 8]; 8];
    for (i, row) in rows.iter_mut().enumerate() {
        row[i] = '#';
    }
    let text: String = rows
        .iter()
        .map(|r| r.iter().collect::<String>() + "\n")
        .collect();

    // '.' is not whitespace, so build the mask from a space-padded version.
    let text = text.replace('.', " ");
    let frame = Frame::parse(&text);

    let out = frame.scale(4, 4, RAMP);
    assert_eq!(out.len(), 4);
    assert!(
        out.iter().all(|l| l.chars().any(|c| c != ' ')),
        "stroke lost: {out:?}"
    );
}

#[test]
fn blank_canvas_renders_empty_lines() {
    let frame = Frame::parse("    \n    \n");
    assert_eq!(frame.scale(2, 2, RAMP), vec!["".to_string(), "".to_string()]);
    assert_eq!(frame.scale(2, 2, Ink::Half), vec!["".to_string(), "".to_string()]);
}

#[test]
fn quadrants_resolve_all_four_corners() {
    // One inked corner at a time must select the matching glyph.
    for (art, expected) in [
        ("#.\n..\n", '▘'),
        (".#\n..\n", '▝'),
        ("..\n#.\n", '▖'),
        ("..\n.#\n", '▗'),
        ("#.\n.#\n", '▚'),
        ("##\n##\n", '█'),
    ] {
        let frame = Frame::parse(&art.replace('.', " "));
        assert_eq!(frame.scale(1, 1, Ink::Quad), vec![expected.to_string()], "{art:?}");
    }
}

#[test]
fn quadrants_keep_a_hole_half_blocks_would_lose() {
    // Two source columns wide into four-column cells: needs Quad.
    let mut rows = vec![vec!['#'; 32]; 8];
    for row in rows.iter_mut() {
        row[12] = ' ';
        row[13] = ' ';
    }
    let text: String = rows.iter().map(|r| r.iter().collect::<String>() + "\n").collect();
    let frame = Frame::parse(&text);

    let quad = frame.scale(8, 4, Ink::Quad);
    assert!(
        quad.iter().all(|l| l.contains('▐') || l.contains('▌') || l.contains(' ')),
        "hole lost in quad mode: {quad:?}"
    );
}

#[test]
fn half_blocks_use_only_solid_glyphs() {
    // The point of this mode is that no glyph is a stipple pattern.
    let frame = Frame::parse("##  \n#  #\n  ##\n####\n");
    let out = frame.scale(4, 2, Ink::Half);
    assert!(
        out.iter().flat_map(|l| l.chars()).all(|c| " ▀▄█".contains(c)),
        "{out:?}"
    );
}

#[test]
fn half_blocks_resolve_two_source_rows_per_cell() {
    // Ink on top only, blank below: one cell, and it must be the upper half
    // rather than a full block or a shade.
    let frame = Frame::parse("##\n  \n");
    assert_eq!(frame.scale(2, 1, Ink::Half), vec!["▀▀".to_string()]);

    let frame = Frame::parse("  \n##\n");
    assert_eq!(frame.scale(2, 1, Ink::Half), vec!["▄▄".to_string()]);
}

#[test]
fn enclosed_holes_are_told_apart_from_background() {
    // A ring: the centre is enclosed, everything outside it is not.
    let frame = Frame::parse("#####\n#   #\n#####\n");
    assert!(frame.hole()[5 + 2], "centre of a ring must be a hole");
    assert!(!frame.hole()[0], "border must be background");

    // The same shape opened at the bottom is a bay, not a hole.
    let frame = Frame::parse("#####\n#   #\n#   #\n");
    assert!(frame.hole().iter().all(|h| !h), "an open gap is not a hole");
}

#[test]
fn a_hole_survives_every_alignment_against_the_output_grid() {
    // A hole that shifts a column per frame. Plain averaging makes it
    // appear in some frames and vanish in others, which reads as flicker.
    for offset in 0..12 {
        let mut rows = vec![vec!['#'; 40]; 9];
        for row in rows.iter_mut().take(6).skip(3) {
            row[10 + offset] = ' ';
            row[11 + offset] = ' ';
        }
        let text: String = rows.iter().map(|r| r.iter().collect::<String>() + "\n").collect();
        let frame = Frame::parse(&text);

        for width in [19usize, 23, 25, 31] {
            let out = frame.scale(width, 4, Ink::Half);
            assert!(
                out.iter().any(|l| l.contains(' ')),
                "hole at offset {offset} vanished at width {width}: {out:?}"
            );
        }
    }
}

#[test]
fn a_hole_stays_a_hole_instead_of_becoming_a_shade() {
    // Averaging turns an eye into a mid-ramp char; thresholding keeps it.
    let mut rows = vec![vec!['#'; 12]; 8];
    for row in rows.iter_mut().take(5).skip(2) {
        row[4] = ' ';
        row[5] = ' ';
    }
    let text: String = rows.iter().map(|r| r.iter().collect::<String>() + "\n").collect();
    let frame = Frame::parse(&text);

    let out = frame.scale(12, 4, Ink::Half);
    assert!(
        out.iter().any(|l| l.contains(' ')),
        "the hole was filled in: {out:?}"
    );
}

#[test]
fn an_unknown_animation_is_an_error_not_a_silent_cat() {
    // An earlier version used "fox-run", which then got bundled.
    let missing = "no-such-animation";
    let Err(err) = Animation::load(None, None, missing, None) else {
        panic!("a typo must not silently resolve to the bundled art");
    };
    assert_eq!(err.kind(), ErrorKind::NotFound);
    assert!(err.message().contains(missing), "{}", err.message());
}

// The cases below exercise the library's own guarantees.

#[test]
fn frames_read_from_disk_shadow_the_built_in_copy() {
    let disk = vec!["##\n##\n".to_string()];
    let built_in = vec!["#\n".to_string(), "#\n".to_string()];
    let Ok(anim) = Animation::load(Some(disk), Some(built_in), "cat-run", None) else {
        panic!("frames on disk must load");
    };
    assert_eq!(anim.frames.len(), 1);
    assert_eq!((anim.width, anim.height), (2, 2));
}

#[test]
fn an_empty_directory_falls_back_to_the_built_in_copy() {
    let built_in = vec!["###\n".to_string(), "#\n#\n".to_string()];
    let Ok(anim) = Animation::load(Some(Vec::new()), Some(built_in), "cat-run", None) else {
        panic!("built-in frames must load");
    };
    assert_eq!(anim.frames.len(), 2);
    // One canvas for every pose: the widest and the tallest frame.
    assert_eq!((anim.width, anim.height), (3, 2));
}

#[test]
fn the_error_names_where_it_looked() {
    let Err(err) = Animation::load(None, None, "x", Some("/art/x".to_string())) else {
        panic!("nothing to load");
    };
    assert_eq!(
        err.message(),
        "no animation named \"x\" (looked in /art/x); try --list"
    );
    let Err(err) = Animation::load(None, None, "x", None) else {
        panic!("nothing to load");
    };
    assert_eq!(
        err.message(),
        "no animation named \"x\" (no animation directory is configured); try --list"
    );
}

#[test]
fn fitting_keeps_the_aspect_ratio_and_never_upscales() {
    let anim = Animation::load(None, Some(vec!["####\n####\n".to_string()]), "a", None).ok().unwrap();
    assert_eq!(anim.fit(100, 100), (4, 2));
    assert_eq!(anim.fit(2, 100), (2, 1));
    assert_eq!(anim.fit(0, 0), (1, 1));
}

#[test]
fn raw_art_keeps_its_own_characters() {
    let frame = Frame::parse("\x1b[31mab\x1b[0m\ncd\n");
    assert_eq!(frame.scale(1, 1, Ink::Raw { color: false }), vec!["ab".to_string(), "cd".to_string()]);
    assert_eq!(
        frame.scale(1, 1, Ink::Raw { color: true }),
        vec!["\x1b[31mab\x1b[0m".to_string(), "cd".to_string()]
    );
}

#[test]
fn the_listing_is_sorted_and_directories_shadow_built_in_art() {
    let built_in = vec![
        Entry { name: "cat-run".into(), frames: 5, path: None },
        Entry { name: "bird".into(), frames: 3, path: None },
    ];
    let found = vec![
        Entry { name: "cat-run".into(), frames: 2, path: Some("/a/cat-run".into()) },
        Entry { name: "empty".into(), frames: 0, path: Some("/a/empty".into()) },
        Entry { name: "ant".into(), frames: 1, path: Some("/a/ant".into()) },
    ];
    let out = list(built_in, found);
    let names: Vec<&str> = out.iter().map(|e| e.name.as_str()).collect();
    assert_eq!(names, ["ant", "bird", "cat-run"]);
    assert_eq!(out[2].frames, 2);
    assert_eq!(out[2].path.as_deref(), Some("/a/cat-run"));
}
