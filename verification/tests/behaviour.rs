use launch::cells::{fit, pad_to, take_cells};
use launch::columns::balance;
use launch::helpers::parse_helpers;
use launch::launcher::{light, Item, Launch, Spot, Step};
use launch::layout::Note;
use launch::programs::{names_in_cache, sorted_unique};
use launch::search::{find, rank};
use launch::window::{is_launcher, password_answer, pid_in};

fn sample() -> Launch {
    let helpers = parse_helpers(
        "Mute On [Ctrl+F1] = wpctl set-mute 1\nVolume Up [Ctrl+F3] = up\nVolume Down = down\n\nBluetooth On = rfkill unblock bluetooth\nBluetooth Off = rfkill block bluetooth\n",
    );
    let progs: Vec<String> = ["gimp", "GIMP-2.10", "vim", "volumeicon"].iter().map(|s| s.to_string()).collect();
    Launch::new(helpers, progs)
}

fn typed(l: &mut Launch, s: &str) {
    for c in s.chars() {
        let k = c.to_string();
        let step = l.handle_key(&k);
        assert!(matches!(step, Step::Stay));
    }
}

#[test]
fn typing_vol_lights_only_the_volume_helpers() {
    let mut l = sample();
    typed(&mut l, "vol");
    assert_eq!(l.query, "vol");
    assert_eq!(l.lit, vec![false, true, true, false, false]);
    assert_eq!(l.lit_count(), 2);
    let names: Vec<&str> = l.hits.iter().map(|&i| l.progs[i].as_str()).collect();
    assert_eq!(names, ["volumeicon"]);
    assert_eq!(l.sel, 0);
}

#[test]
fn typing_gimp_finds_names_in_any_case() {
    let mut l = sample();
    typed(&mut l, "GIMP");
    let names: Vec<&str> = l.hits.iter().map(|&i| l.progs[i].as_str()).collect();
    assert_eq!(names, ["gimp", "GIMP-2.10"]);
}

#[test]
fn find_compares_in_lower_case() {
    let p: Vec<String> = vec!["GIMP".to_string(), "Gimpel".to_string(), "xgimp".to_string()];
    assert_eq!(find(&p, "gimp"), vec![0, 1, 2]);
    assert_eq!(find(&p, ""), Vec::<usize>::new());
    assert_eq!(find(&p, "zzz"), Vec::<usize>::new());
}

#[test]
fn rank_orders_prefix_then_length_then_place() {
    let lowered: Vec<String> = ["abcx", "xab", "ab", "abc"].iter().map(|s| s.to_string()).collect();
    let lens = vec![4, 3, 2, 3];
    assert_eq!(rank(&lowered, &lens, "ab"), vec![2, 3, 0, 1]);
    // the byte length decides, not the lower-case name
    let lens = vec![1, 3, 9, 3];
    assert_eq!(rank(&lowered, &lens, "ab"), vec![0, 3, 2, 1]);
}

#[test]
fn empty_query_lights_every_helper() {
    let names: Vec<String> = vec!["a".to_string(), "b".to_string()];
    assert_eq!(light(&names, ""), vec![true, true]);
    assert_eq!(light(&names, "a"), vec![true, false]);
}

#[test]
fn back_undoes_a_typed_character() {
    let mut l = sample();
    typed(&mut l, "vo");
    let lit = l.lit.clone();
    let hits = l.hits.clone();
    typed(&mut l, "x");
    assert!(matches!(l.handle_key("BACK"), Step::Stay));
    assert_eq!(l.query, "vo");
    assert_eq!(l.lit, lit);
    assert_eq!(l.hits, hits);
}

#[test]
fn word_and_line_deletion() {
    let mut l = sample();
    typed(&mut l, "blue tooth  ");
    assert!(matches!(l.handle_key("C-W"), Step::Stay));
    assert_eq!(l.query, "blue ");
    assert!(matches!(l.handle_key("WBACK"), Step::Stay));
    assert_eq!(l.query, "");
    typed(&mut l, "vol");
    assert!(matches!(l.handle_key("C-U"), Step::Stay));
    assert_eq!(l.query, "");
    assert!(l.lit.iter().all(|&b| b));
    assert!(l.hits.is_empty());
}

#[test]
fn paste_takes_the_first_line() {
    let mut l = sample();
    assert!(matches!(l.handle_key("PASTE\0gimp\r\nmore"), Step::Stay));
    assert_eq!(l.query, "gimp");
    assert!(matches!(l.handle_key("PASTE\0 -x"), Step::Stay));
    assert_eq!(l.query, "gimp -x");
    assert!(matches!(l.handle_key("PASTE\0"), Step::Stay));
    assert_eq!(l.query, "gimp -x");
}

#[test]
fn unknown_keys_change_nothing() {
    let mut l = sample();
    typed(&mut l, "v");
    assert!(matches!(l.handle_key("F5"), Step::Stay));
    assert_eq!(l.query, "v");
}

#[test]
fn escape_and_f12_close() {
    let mut l = sample();
    assert!(matches!(l.handle_key("ESC"), Step::Close));
    assert!(matches!(l.handle_key("F12"), Step::Close));
}

#[test]
fn enter_runs_the_selection_or_what_was_typed() {
    let mut l = sample();
    assert!(matches!(l.handle_key("ENTER"), Step::Stay));
    typed(&mut l, "  echo hi ");
    match l.handle_key("ENTER") {
        Step::Run(c) => assert_eq!(c, "echo hi"),
        _ => panic!("expected a command"),
    }
    l.spots = vec![
        Spot { item: Item::Helper(1), x: 3, y: 3 },
        Spot { item: Item::Prog(2), x: 3, y: 10 },
    ];
    l.sel = 1;
    match l.handle_key("ENTER") {
        Step::Run(c) => assert_eq!(c, "vim"),
        _ => panic!("expected a program"),
    }
    l.sel = 0;
    match l.handle_key("ENTER") {
        Step::Run(c) => assert_eq!(c, "up"),
        _ => panic!("expected a helper command"),
    }
}

#[test]
fn up_and_down_stay_within_the_spots() {
    let mut l = sample();
    l.spots = vec![
        Spot { item: Item::Helper(0), x: 3, y: 3 },
        Spot { item: Item::Helper(1), x: 3, y: 4 },
    ];
    l.handle_key("UP");
    assert_eq!(l.sel, 0);
    l.handle_key("DOWN");
    assert_eq!(l.sel, 1);
    l.handle_key("TAB");
    assert_eq!(l.sel, 1);
    l.handle_key("S-TAB");
    assert_eq!(l.sel, 0);
}

#[test]
fn sideways_moves_to_the_nearest_in_the_next_column() {
    let mut l = sample();
    l.spots = vec![
        Spot { item: Item::Helper(0), x: 3, y: 3 },
        Spot { item: Item::Helper(1), x: 3, y: 4 },
        Spot { item: Item::Helper(2), x: 20, y: 3 },
        Spot { item: Item::Helper(3), x: 20, y: 5 },
        Spot { item: Item::Helper(4), x: 40, y: 4 },
    ];
    l.sel = 1;
    l.sideways(true);
    assert_eq!(l.sel, 2);
    l.sideways(true);
    assert_eq!(l.sel, 4);
    l.sideways(true);
    assert_eq!(l.sel, 4);
    // two as near: the first of them
    l.sideways(false);
    assert_eq!(l.sel, 2);
    l.sideways(false);
    assert_eq!(l.sel, 0);
    l.sel = 9;
    l.sideways(false);
    assert_eq!(l.sel, 9);
}

#[test]
fn layout_places_groups_in_columns_and_programs_below() {
    let mut l = sample();
    let name_w: Vec<usize> = l.helpers.iter().map(|h| h.name.chars().count()).collect();
    let hot_w: Vec<usize> = l.helpers.iter().map(|h| h.hot.chars().count()).collect();
    let prog_w: Vec<usize> = l.progs.iter().map(|p| p.chars().count()).collect();
    // widest name 13 ("Bluetooth Off"), widest key 7: cell 22, columns 26 apart.
    let f = l.layout(80, 24, &name_w, &hot_w, &prog_w);
    assert_eq!((f.name_w, f.cell, f.col_w), (13, 22, 26));
    assert_eq!(f.sizes, vec![3, 2]);
    assert_eq!(f.columns, vec![vec![0], vec![1]]);
    let rows: Vec<(usize, usize, usize)> = f.rows.iter().map(|r| (r.helper, r.x, r.y)).collect();
    assert_eq!(rows, vec![(0, 3, 3), (1, 3, 4), (2, 3, 5), (3, 29, 3), (4, 29, 4)]);
    assert_eq!(f.field_y, 8);
    assert_eq!(f.top, 10);
    assert_eq!(f.note, Note::Hint);
    assert_eq!(l.spots.len(), 5);

    typed(&mut l, "o");
    let f = l.layout(80, 24, &name_w, &hot_w, &prog_w);
    assert_eq!(f.note, Note::Cells);
    // every helper holds "o"; the programs that do: volumeicon
    let progs: Vec<Spot> = l.spots.iter().copied().filter(|s| matches!(s.item, Item::Prog(_))).collect();
    assert_eq!(progs, vec![Spot { item: Item::Prog(3), x: 3, y: 10 }]);
    assert_eq!(f.prog_w, 10);

    typed(&mut l, "qq");
    let f = l.layout(80, 24, &name_w, &hot_w, &prog_w);
    assert_eq!(f.note, Note::NoMatch);
    assert!(l.spots.is_empty());
}

#[test]
fn layout_stops_above_the_bottom_bar() {
    let mut l = sample();
    let name_w = vec![5; 5];
    let hot_w = vec![0; 5];
    let prog_w = vec![4; 4];
    // one column only: 3 lines, a blank, 2 lines; the bottom line is 6
    let f = l.layout(12, 7, &name_w, &hot_w, &prog_w);
    assert_eq!(f.columns, vec![vec![0, 1]]);
    let rows: Vec<(usize, usize)> = f.rows.iter().map(|r| (r.helper, r.y)).collect();
    assert_eq!(rows, vec![(0, 3), (1, 4), (2, 5)]);
    assert_eq!(f.field_y, 11);
}

#[test]
fn programs_run_down_then_across() {
    let helpers = parse_helpers("");
    let progs: Vec<String> = (0..7).map(|i| format!("p{i}")).collect();
    let mut l = Launch::new(helpers, progs);
    typed(&mut l, "p");
    let prog_w = vec![2; 7];
    // no helpers: field on line 4, programs from line 6, bottom line 9: 3 lines
    let f = l.layout(20, 10, &vec![], &vec![], &prog_w);
    assert_eq!((f.field_y, f.top, f.prog_w), (4, 6, 2));
    let at: Vec<(usize, usize)> = l.spots.iter().map(|s| (s.x, s.y)).collect();
    // columns 6 apart, 3 across
    assert_eq!(at, vec![(3, 6), (3, 7), (3, 8), (9, 6), (9, 7), (9, 8), (15, 6)]);
}

#[test]
fn balance_keeps_order_and_limits() {
    assert_eq!(balance(&[], 3), vec![Vec::<usize>::new()]);
    assert_eq!(balance(&[4], 0), vec![vec![0]]);
    assert_eq!(balance(&[2, 2, 2], 3), vec![vec![0], vec![1], vec![2]]);
    assert_eq!(balance(&[1, 1, 1, 1], 2), vec![vec![0, 1], vec![2, 3]]);
    assert_eq!(balance(&[5, 2, 4, 3, 6, 2], 3).len(), 3);
}

#[test]
fn balance_is_as_even_as_groups_allow() {
    // No split of these into two columns has a column under 5 lines.
    assert_eq!(balance(&[2, 2, 2], 2), vec![vec![0, 1], vec![2]]);
    assert_eq!(balance(&[5, 2, 4, 3, 6, 2], 3), vec![vec![0, 1], vec![2, 3], vec![4, 5]]);
    // Columns 2, 3 and 3 lines high; every other split has one of 4.
    assert_eq!(balance(&[2, 1, 1, 3], 3), vec![vec![0], vec![1, 2], vec![3]]);
    assert_eq!(balance(&[4, 2, 3, 6, 6, 6], 5), vec![vec![0], vec![1, 2], vec![3], vec![4], vec![5]]);
    // One column, or none asked for: every group in it.
    assert_eq!(balance(&[3, 3], 1), vec![vec![0, 1]]);
    assert_eq!(balance(&[1, 2, 3], 0), vec![vec![0, 1, 2]]);
}

#[test]
fn helpers_file_edge_cases() {
    let h = parse_helpers("\n\n# only comments\nno separator here\nA=b\n[k] = x\n  Name [ Key ]  =   run it  \n\nB [x = y\n");
    let got: Vec<(&str, &str, &str, usize)> =
        h.iter().map(|h| (h.name.as_str(), h.hot.as_str(), h.cmd.as_str(), h.group)).collect();
    assert_eq!(got, vec![("", "k", "x", 0), ("Name", "Key", "run it", 0), ("B [x", "", "y", 1)]);
    assert!(parse_helpers("").is_empty());
}

#[test]
fn cache_file_names() {
    let mut b = vec![7u8; 16];
    b.extend_from_slice(b"ls\0\0vim\0caf\xc3\xa9\0bad\xff");
    let names = names_in_cache(&b);
    assert_eq!(names, vec!["ls", "vim", "café", "bad\u{fffd}"]);
    assert!(names_in_cache(&[1u8; 16]).is_empty());
}

#[test]
fn names_sorted_each_once() {
    let names: Vec<String> = ["vim", "ls", "Vim", "ls", "émacs", "a"].iter().map(|s| s.to_string()).collect();
    assert_eq!(sorted_unique(names), vec!["Vim", "a", "ls", "vim", "émacs"]);
}

#[test]
fn cells_cut_and_pad() {
    assert_eq!(take_cells("abcdef", &vec![1; 6], 4), "abcd");
    assert_eq!(take_cells("a漢b", &vec![1, 2, 1], 2), "a");
    assert_eq!(take_cells("a漢b", &vec![1, 2, 1], 3), "a漢");
    assert_eq!(pad_to("ab", 2, 5), "ab   ");
    assert_eq!(pad_to("abcdef", 6, 4), "abcdef");
}

#[test]
fn fit_gives_exactly_the_cells_asked() {
    assert_eq!(fit("abcdef", &vec![1; 6], 4), "abc…");
    assert_eq!(fit("ab", &vec![1, 1], 5), "ab   ");
    assert_eq!(fit("abcd", &vec![1; 4], 4), "abcd");
    assert_eq!(fit("a漢b", &vec![1, 2, 1], 3), "a… ");
    assert_eq!(fit("abc", &vec![1; 3], 0), "");
    assert_eq!(fit("", &vec![], 2), "  ");
}

#[test]
fn password_answers() {
    assert_eq!(password_answer("secret\n"), Some("secret".to_string()));
    assert_eq!(password_answer("a b\n\n"), Some("a b".to_string()));
    assert_eq!(password_answer("\n"), None);
    assert_eq!(password_answer(""), None);
}

#[test]
fn pid_files_and_process_names() {
    assert_eq!(pid_in(" 4242\n"), Some(4242));
    assert_eq!(pid_in("abc"), None);
    assert_eq!(pid_in("+12"), Some(12));
    assert_eq!(pid_in("-3\n"), Some(-3));
    assert_eq!(pid_in("12a"), None);
    assert_eq!(pid_in("1 2"), None);
    assert_eq!(pid_in("-"), None);
    assert_eq!(pid_in("2147483647"), Some(2147483647));
    assert_eq!(pid_in("2147483648"), None);
    assert!(is_launcher("launch\n"));
    assert!(!is_launcher("launcher\n"));
}
