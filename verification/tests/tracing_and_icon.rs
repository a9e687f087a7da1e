use saveowl::icon::owl_icon_rgba;
use saveowl::trace::{FileEvent, FileTracker};

fn ev(id: u16, obj: Option<usize>, name: Option<&str>, path: Option<&str>) -> FileEvent {
    FileEvent { id, file_object: obj, file_name: name.map(|s| s.into()), file_path: path.map(|s| s.into()) }
}

const SAVE: &str = r"C:\Users\ann\Saved Games\Owl\slot1.sav";
const OTHER: &str = r"C:\Users\ann\Saved Games\Owl\slot2.sav";
const LOG: &str = r"C:\Users\ann\Owl\game.log";

#[test]
fn opened_saves_of_the_game_are_touched() {
    let mut t = FileTracker::new();
    assert_eq!(t.handle(&ev(12, Some(1), Some(SAVE), None), true), vec![SAVE.to_string()]);
    assert_eq!(t.handle(&ev(30, Some(2), None, Some(OTHER)), true), vec![OTHER.to_string()]);
    assert!(t.handle(&ev(12, Some(3), Some(LOG), None), true).is_empty());
    assert!(t.handle(&ev(12, Some(4), Some(SAVE), None), false).is_empty());
    assert!(t.handle(&ev(12, None, Some(SAVE), None), true).is_empty());
}

#[test]
fn writes_are_traced_back_to_the_opened_path() {
    let mut t = FileTracker::new();
    t.handle(&ev(12, Some(1), Some(SAVE), None), false);
    assert_eq!(t.handle(&ev(16, Some(1), None, None), true), vec![SAVE.to_string()]);
    assert_eq!(t.handle(&ev(27, Some(1), Some(OTHER), None), true), vec![SAVE.to_string(), OTHER.to_string()]);
    // not from the game
    assert!(t.handle(&ev(16, Some(1), None, None), false).is_empty());
    // closing forgets the object
    assert!(t.handle(&ev(14, Some(1), None, None), true).is_empty());
    assert!(t.handle(&ev(16, Some(1), None, None), true).is_empty());
    // other events do nothing
    assert!(t.handle(&ev(99, Some(1), Some(SAVE), None), true).is_empty());
}

#[test]
fn icon_pixels() {
    let rgba = owl_icon_rgba();
    assert_eq!(rgba.len(), 32 * 32 * 4);
    let px = |x: usize, y: usize| rgba[(y * 32 + x) * 4..(y * 32 + x) * 4 + 4].to_vec();
    assert_eq!(px(0, 0), vec![0, 0, 0, 0]);
    assert_eq!(px(16, 16), vec![235, 170, 55, 255]); // beak
    assert_eq!(px(11, 13), vec![235, 240, 245, 255]); // left eye
    assert_eq!(px(21, 13), vec![235, 240, 245, 255]); // right eye
    assert_eq!(px(16, 8), vec![50, 70, 95, 255]); // body
    assert_eq!(px(16, 3), vec![0, 0, 0, 0]); // 13 rows above the centre: outside
    assert_eq!(px(13, 20), vec![235, 170, 55, 255]);
    assert_eq!(px(20, 20), vec![50, 70, 95, 255]);
}
