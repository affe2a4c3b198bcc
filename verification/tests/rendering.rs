use thoughtgraph::render::{
    answer_given, dot_place, file_stem, graph_files, paths_files, place_tested, render_outcome,
    replace_unsafe_char, shell_answered, shell_said, start_lookup, trim, DotLookup, RenderError,
    PLACES,
};

#[test]
fn file_names_keep_letters_and_numbers() {
    assert_eq!(file_stem("Q2-Retro_1"), "Q2-Retro_1");
    assert_eq!(file_stem("../a b/c.d"), "___a_b_c_d");
    assert_eq!(file_stem("产品 速度٣"), "产品_速度٣");
    assert_eq!(file_stem(""), "");
}

#[test]
fn characters_are_replaced_by_their_class() {
    assert_eq!(replace_unsafe_char('x', true), 'x');
    assert_eq!(replace_unsafe_char('-', false), '-');
    assert_eq!(replace_unsafe_char('_', false), '_');
    assert_eq!(replace_unsafe_char('/', false), '_');
    assert_eq!(replace_unsafe_char('/', true), '/');
}

#[test]
fn files_of_a_graph_and_of_its_paths() {
    let files = graph_files("my graph", "pdf");
    assert_eq!(files.gv_file, "my_graph.gv");
    assert_eq!(files.image_file, "my_graph.pdf");
    assert_eq!(files.format_arg, "-Tpdf");
    let files = paths_files("my graph", "svg");
    assert_eq!(files.gv_file, "my_graph_paths.gv");
    assert_eq!(files.image_file, "my_graph_paths.svg");
    assert_eq!(files.format_arg, "-Tsvg");
    assert_ne!(files.gv_file, files.image_file);
    let files = graph_files("g", "gv");
    assert_eq!(files.gv_file, files.image_file);
}

#[test]
fn outcome_of_a_run() {
    match render_outcome(true, Some(0), "a.gv".to_string(), "a.png".to_string()) {
        Ok(r) => {
            assert_eq!(r.gv_path, "a.gv");
            assert_eq!(r.image_path, "a.png");
        }
        Err(_) => panic!(),
    }
    match render_outcome(false, Some(-3), "a.gv".to_string(), "a.png".to_string()) {
        Err(e) => assert_eq!(e.message(), "dot exited with status Some(-3)"),
        Ok(_) => panic!(),
    }
    match render_outcome(false, None, "a.gv".to_string(), "a.png".to_string()) {
        Err(e) => assert_eq!(e.message(), "dot exited with status None"),
        Ok(_) => panic!(),
    }
    assert_eq!(
        RenderError::DotNotFound.message(),
        "graphviz `dot` not found. Install with `brew install graphviz`."
    );
}

fn look_up(files: [bool; 3], success: bool, stdout: &[u8]) -> Option<String> {
    let mut next = start_lookup();
    loop {
        next = match next {
            DotLookup::TestPlace(i) => place_tested(i, files[i]),
            DotLookup::AskShell => shell_answered(success, stdout),
            DotLookup::Found(path) => return Some(path),
            DotLookup::NotFound => return None,
        };
    }
}

#[test]
fn the_first_place_with_a_file_wins() {
    assert_eq!(PLACES, 3);
    assert_eq!(dot_place(0), "/usr/local/bin/dot");
    assert_eq!(dot_place(1), "/opt/homebrew/bin/dot");
    assert_eq!(dot_place(2), "/usr/bin/dot");
    let answer = b"/nix/dot\n";
    let found = |files| look_up(files, true, answer);
    assert_eq!(found([true, true, true]), Some("/usr/local/bin/dot".to_string()));
    assert_eq!(found([false, true, true]), Some("/opt/homebrew/bin/dot".to_string()));
    assert_eq!(found([false, false, true]), Some("/usr/bin/dot".to_string()));
    assert_eq!(found([false, false, false]), Some("/nix/dot".to_string()));
}

#[test]
fn the_shell_may_not_know() {
    assert_eq!(look_up([false; 3], false, b"/nix/dot\n"), None);
    assert_eq!(look_up([false; 3], true, b" \n\t"), None);
    assert_eq!(look_up([false; 3], true, b""), None);
    assert_eq!(look_up([false; 3], true, b"/a\xffb\n"), Some("/a\u{fffd}b".to_string()));
    assert!(matches!(shell_said(true, " dot "), DotLookup::Found(p) if p == "dot"));
    assert!(matches!(shell_said(false, "dot"), DotLookup::NotFound));
    assert!(matches!(answer_given(true, " dot".to_string()), DotLookup::Found(p) if p == " dot"));
    assert!(matches!(answer_given(true, String::new()), DotLookup::NotFound));
    assert!(matches!(answer_given(false, "dot".to_string()), DotLookup::NotFound));
}

#[test]
fn space_is_trimmed_on_both_sides() {
    for text in ["", " ", "x", " x y ", "\u{3000}x\u{a0}", "\r\n\tx\u{b}\u{c}", "x\u{200b}"] {
        assert_eq!(trim(text), text.trim());
    }
}
