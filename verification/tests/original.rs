use launch::columns::balance;
use launch::helpers::parse_helpers;
use launch::search::find;

#[test]
fn helpers_read_with_keys_and_groups() {
    let h = parse_helpers("# c\nMute [Ctrl+F1] = wpctl a\nUp = b || c\n\n\nTile [Win+x] = pkill -USR2 tile\n");
    assert_eq!(h.len(), 3);
    assert_eq!((h[0].name.as_str(), h[0].hot.as_str(), h[0].cmd.as_str()), ("Mute", "Ctrl+F1", "wpctl a"));
    assert_eq!((h[1].hot.as_str(), h[1].cmd.as_str(), h[1].group), ("", "b || c", 0));
    assert_eq!(h[2].group, 1);
}

#[test]
fn names_that_start_with_it_come_first() {
    let p: Vec<String> = ["xgimp", "gimp-2.10", "gimp", "other"].iter().map(|s| s.to_string()).collect();
    let hits: Vec<&str> = find(&p, "gimp").iter().map(|&i| p[i].as_str()).collect();
    assert_eq!(hits, ["gimp", "gimp-2.10", "xgimp"]);
}

#[test]
fn groups_fill_columns_evenly_and_in_order() {
    let cols = balance(&[5, 2, 4, 3, 6, 2], 3);
    assert!(cols.len() <= 3);
    let flat: Vec<usize> = cols.concat();
    assert_eq!(flat, [0, 1, 2, 3, 4, 5]);
    assert_eq!(balance(&[3, 3], 1), vec![vec![0, 1]]);
}
