use image_compression::library::{load_image_library, DirEntryInfo, LibraryConfig, LibraryListing};
use image_compression::pattern::{hash, math_pattern};
use image_compression::runner::{
    category, compressor_names, is_compressor_spec, is_image, parse_args, select_compressors,
    short_name, truncate, Mode, Parsed,
};

fn strings(v: &[&str]) -> Vec<String> {
    v.iter().map(|s| s.to_string()).collect()
}

#[test]
fn names_of_the_compressors() {
    assert_eq!(compressor_names(), vec!["PNG", "RLE", "RLCE", "Huffman"]);
}

#[test]
fn select_all() {
    assert_eq!(select_compressors("ALL").unwrap(), vec!["PNG", "RLE", "RLCE", "Huffman"]);
}

#[test]
fn select_some_in_display_order() {
    assert_eq!(select_compressors("huffman, rle").unwrap(), vec!["RLE", "Huffman"]);
    assert_eq!(select_compressors(" png ,, PNG").unwrap(), vec!["PNG"]);
    assert_eq!(select_compressors("").unwrap(), Vec::<&str>::new());
}

#[test]
fn select_unknown_name() {
    assert_eq!(select_compressors("rle, jpeg ,zip"), Err("jpeg".to_string()));
    assert_eq!(select_compressors("all,rle"), Err("all".to_string()));
}

#[test]
fn compressor_specs() {
    assert!(is_compressor_spec("huffman"));
    assert!(is_compressor_spec("rle,png"));
    assert!(is_compressor_spec(" All "));
    assert!(is_compressor_spec("rle,,"));
    assert!(!is_compressor_spec(""));
    assert!(!is_compressor_spec(" , "));
    assert!(!is_compressor_spec("rle,images"));
}

#[test]
fn image_extensions() {
    assert!(is_image(Some("png")));
    assert!(is_image(Some("JPEG")));
    assert!(is_image(Some("Ppm")));
    assert!(!is_image(Some("txt")));
    assert!(!is_image(None));
}

#[test]
fn categories() {
    assert_eq!(category(&strings(&["images", "math"])), "math");
    assert_eq!(category(&strings(&["x", "images", "real-life", "sub"])), "real-life");
    assert_eq!(category(&strings(&["images", "a", "images"])), "images");
    assert_eq!(category(&strings(&["a", "b"])), "b");
    assert_eq!(category(&strings(&[])), "(root)");
}

#[test]
fn truncation() {
    assert_eq!(truncate("hello", 10), "hello");
    assert_eq!(truncate("hello", 5), "hello");
    assert_eq!(truncate("hello world", 5), "hell\u{2026}");
    assert_eq!(truncate("abc", 0), "\u{2026}");
}

#[test]
fn short_names() {
    assert_eq!(short_name("images/math/01.png"), "01.png");
    assert_eq!(short_name("plain"), "plain");
    assert_eq!(short_name(".."), "..");
    assert_eq!(short_name("/"), "/");
}

#[test]
fn pixel_hash_values() {
    assert_eq!(hash(0, 0, 0), 0);
    assert_eq!(hash(1, 0, 0), 1667036862);
    assert_eq!(hash(3, 7, 11), 1080504122);
    assert_eq!(hash(100, 200, 9), 2160124652);
}

#[test]
fn parse_help() {
    let args = strings(&["RLE", "--help"]);
    assert!(matches!(parse_args(&args, &[false, false]), Ok(Parsed::Usage)));
}

#[test]
fn parse_targets_compressors_and_mode() {
    let args = strings(&["images/a.png", "rle,Huffman", "compare", "--csv", "out.csv"]);
    match parse_args(&args, &[true, false, false, false, false]) {
        Ok(Parsed::Run(cli)) => {
            assert_eq!(cli.targets, strings(&["images/a.png"]));
            assert_eq!(cli.compressors, strings(&["rle", "Huffman"]));
            assert!(cli.mode == Some(Mode::Compare));
            assert_eq!(cli.csv, Some("out.csv".to_string()));
        }
        _ => panic!("expected a run"),
    }
}

#[test]
fn parse_compressor_flag_keeps_empty_parts() {
    let args = strings(&["-c", " rle , png ,", "avg"]);
    match parse_args(&args, &[false, false, false]) {
        Ok(Parsed::Run(cli)) => {
            assert_eq!(cli.compressors, strings(&["rle", "png", ""]));
            assert!(cli.mode == Some(Mode::Average));
            assert!(cli.targets.is_empty());
        }
        _ => panic!("expected a run"),
    }
}

#[test]
fn parse_existing_path_wins_over_a_name() {
    let args = strings(&["png"]);
    match parse_args(&args, &[true]) {
        Ok(Parsed::Run(cli)) => {
            assert_eq!(cli.targets, strings(&["png"]));
            assert!(cli.compressors.is_empty());
        }
        _ => panic!("expected a run"),
    }
}

#[test]
fn parse_errors() {
    assert_eq!(parse_args(&strings(&["--csv"]), &[false]).err(), Some("--csv needs a value".to_string()));
    assert_eq!(parse_args(&strings(&["-c"]), &[false]).err(), Some("--compressor needs a value".to_string()));
    assert_eq!(parse_args(&strings(&["-x"]), &[true]).err(), Some("Unknown option '-x'".to_string()));
    assert_eq!(
        parse_args(&strings(&["foo"]), &[false]).err(),
        Some("'foo' is neither an existing path nor a known compressor. Known: PNG, RLE, RLCE, Huffman".to_string())
    );
}

fn entry(path: &str, is_file: bool, is_dir: bool, ext: Option<&str>) -> DirEntryInfo {
    DirEntryInfo { path: path.to_string(), is_file, is_dir, extension: ext.map(|e| e.to_string()) }
}

#[test]
fn library_listing() {
    let config = LibraryConfig {
        library_path: "lib".to_string(),
        search_subdirectories: false,
        supported_formats: strings(&["png", "ppm"]),
    };
    let listing = LibraryListing::Entries(vec![
        entry("lib/a.png", true, false, Some("png")),
        entry("lib/b.txt", true, false, Some("txt")),
        entry("lib/sub", false, true, None),
        entry("lib/c.PNG", true, false, Some("PNG")),
        entry("lib/d.ppm", true, false, Some("ppm")),
    ]);
    assert_eq!(load_image_library(&config, &listing).unwrap(), strings(&["lib/a.png", "lib/d.ppm"]));
    assert_eq!(
        load_image_library(&config, &LibraryListing::Missing).err(),
        Some("Library path doesn't exist!".to_string())
    );
    assert_eq!(
        load_image_library(&config, &LibraryListing::NotADirectory).err(),
        Some("Library path is not a directory!".to_string())
    );
    assert_eq!(
        load_image_library(&config, &LibraryListing::Unreadable).err(),
        Some("Failed to read directory entries!".to_string())
    );
}

#[test]
fn compressor_words_select_something() {
    for word in ["Huffman,png", "rle", " RLCE , ", "all"] {
        assert!(is_compressor_spec(word));
        assert!(!select_compressors(word).unwrap().is_empty());
    }
    assert!(is_compressor_spec("all,rle"));
    assert_eq!(select_compressors("all,rle"), Err("all".to_string()));
}

#[test]
fn math_pattern_values() {
    assert_eq!(math_pattern(0, 17, 300), (245, 245, 245));
    assert_eq!(math_pattern(1, 0, 100), (220, 140, 60));
    assert_eq!(math_pattern(2, 100, 0), (48, 80, 196));
    assert_eq!(math_pattern(7, 511, 511), (254, 100, 1));
    let v = hash(5, 6, 1);
    assert_eq!(math_pattern(8, 5, 6), ((v & 0xFF) as u8, ((v >> 8) & 0xFF) as u8, ((v >> 16) & 0xFF) as u8));
    assert_eq!(math_pattern(10, 511, 0), (0, 255, 1));
    assert_eq!(math_pattern(22, 3, 5), (40, 80, 180));
    assert_eq!(math_pattern(22, 2, 5), (245, 245, 245));
    assert_eq!(math_pattern(23, 64, 0), (80, 150, 220));
}

#[test]
fn short_names_skip_separators_and_dots() {
    assert_eq!(short_name("a/b/"), "b");
    assert_eq!(short_name("a//b"), "b");
    assert_eq!(short_name("a/./"), "a");
    assert_eq!(short_name("dir/.."), "dir/..");
    assert_eq!(short_name("."), ".");
    assert_eq!(short_name(""), "");
    assert_eq!(short_name("/x.png"), "x.png");
}

#[test]
fn parse_order_of_units_does_not_matter() {
    let a = strings(&["images/a.png", "rle", "--csv", "out.csv", "images/b", "compare", "-c", "png"]);
    let b = strings(&["-c", "png", "compare", "images/b", "--csv", "out.csv", "rle", "images/a.png"]);
    let ea = [true, false, false, false, true, false, false, false];
    let eb = [false, false, false, true, false, false, false, true];
    match (parse_args(&a, &ea), parse_args(&b, &eb)) {
        (Ok(Parsed::Run(x)), Ok(Parsed::Run(y))) => {
            let (mut tx, mut ty) = (x.targets.clone(), y.targets.clone());
            tx.sort();
            ty.sort();
            assert_eq!(tx, ty);
            let (mut cx, mut cy) = (x.compressors.clone(), y.compressors.clone());
            cx.sort();
            cy.sort();
            assert_eq!(cx, cy);
            assert!(x.mode == y.mode && x.mode == Some(Mode::Compare));
            assert_eq!(x.csv, y.csv);
        }
        _ => panic!("expected two runs"),
    }
}
