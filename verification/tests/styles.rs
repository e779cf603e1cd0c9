use arborio::styles::{StylegroundAction, StylegroundSelection, Stylegrounds};

fn sel(fg: bool, idx: usize) -> StylegroundSelection {
    StylegroundSelection { fg, idx }
}

fn names(v: &[&str]) -> Vec<String> {
    v.iter().map(|s| s.to_string()).collect()
}

fn styles() -> Stylegrounds<String> {
    Stylegrounds { fg: names(&["snow", "rain"]), bg: names(&["stars"]) }
}

fn undo(s: &mut Stylegrounds<String>, a: StylegroundAction<String>) {
    let inv = s.apply(a).unwrap();
    s.apply(inv).unwrap();
}

#[test]
fn styleground_edits() {
    let mut s = styles();
    s.apply(StylegroundAction::AddStyleground { loc: sel(false, 0), style: "fog".to_string() }).unwrap();
    assert_eq!(s.bg, names(&["fog", "stars"]));
    s.apply(StylegroundAction::MoveStyleground { loc: sel(true, 0), target: sel(false, 2) }).unwrap();
    assert_eq!(s.fg, names(&["rain"]));
    assert_eq!(s.bg, names(&["fog", "stars", "snow"]));
    s.apply(StylegroundAction::UpdateStyleground { loc: sel(true, 0), style: "hail".to_string() }).unwrap();
    assert_eq!(s.fg, names(&["hail"]));
    let back = s.apply(StylegroundAction::RemoveStyleground { loc: sel(false, 1) }).unwrap();
    assert!(matches!(back, StylegroundAction::AddStyleground { loc, ref style } if loc == sel(false, 1) && style == "stars"));
}

#[test]
fn styleground_edits_out_of_range() {
    let mut s = styles();
    let err = s.apply(StylegroundAction::RemoveStyleground { loc: sel(false, 1) }).unwrap_err();
    assert_eq!(err, "Out of range");
    assert!(s.apply(StylegroundAction::AddStyleground { loc: sel(true, 3), style: "x".to_string() }).is_err());
    assert_eq!(s.fg, names(&["snow", "rain"]));
    let moved = s.apply(StylegroundAction::MoveStyleground { loc: sel(true, 1), target: sel(false, 9) }).unwrap();
    assert_eq!(s.fg, names(&["snow", "rain"]));
    assert!(matches!(moved, StylegroundAction::MoveStyleground { loc, target } if loc == sel(true, 1) && target == sel(true, 1)));
}

#[test]
fn styleground_undo_restores() {
    let edits = vec![
        StylegroundAction::AddStyleground { loc: sel(true, 1), style: "fog".to_string() },
        StylegroundAction::UpdateStyleground { loc: sel(false, 0), style: "moon".to_string() },
        StylegroundAction::RemoveStyleground { loc: sel(true, 0) },
        StylegroundAction::MoveStyleground { loc: sel(true, 0), target: sel(false, 1) },
        StylegroundAction::MoveStyleground { loc: sel(false, 0), target: sel(false, 7) },
    ];
    for e in edits {
        let mut s = styles();
        undo(&mut s, e);
        assert_eq!(s.fg, names(&["snow", "rain"]));
        assert_eq!(s.bg, names(&["stars"]));
    }
}
