//! Following file events to find the files a game writes.
//!
//! A kernel file trace reports file objects when they are opened, with their path,
//! and later reports writes, renames and deletions by object. The tracker remembers
//! each open object's path and reports the candidate save files that the game's
//! processes touch.
use vstd::prelude::*;
use vstd::utf8::encode_utf8;
use std::collections::HashMap;
use crate::paths::{candidate_path, is_candidate_path};

verus! {

/// The fields of one file event that the tracker reads.
#[derive(Clone, Debug)]
pub struct FileEvent {
    /// The event id: 12 and 30 open a file, 16 to 19, 26 and 27 change one, 14 closes one.
    pub id: u16,
    pub file_object: Option<usize>,
    /// The `FileName` field.
    pub file_name: Option<String>,
    /// The `FilePath` field, read when an open event has no `FileName`.
    pub file_path: Option<String>,
}

pub open spec fn is_open_event(id: u16) -> bool {
    id == 12 || id == 30
}

pub open spec fn is_change_event(id: u16) -> bool {
    id == 16 || id == 17 || id == 18 || id == 19 || id == 26 || id == 27
}

pub open spec fn is_close_event(id: u16) -> bool {
    id == 14
}

/// Whether a path text can hold a save.
pub open spec fn candidate_text(path: Seq<char>) -> bool {
    candidate_path(encode_utf8(path))
}

/// The path an open event names: `FileName`, or else `FilePath`.
pub open spec fn opened_path(ev: FileEvent) -> Option<String> {
    match ev.file_name {
        Some(n) => Some(n),
        None => ev.file_path,
    }
}

/// The open objects once the event has been seen.
pub open spec fn objects_after(objects: Map<usize, String>, ev: FileEvent) -> Map<usize, String> {
    if is_open_event(ev.id) {
        match (ev.file_object, opened_path(ev)) {
            (Some(obj), Some(path)) => objects.insert(obj, path),
            _ => objects,
        }
    } else if is_close_event(ev.id) {
        match ev.file_object {
            Some(obj) => objects.remove(obj),
            None => objects,
        }
    } else {
        objects
    }
}

/// The paths the event touches that can hold saves, for a process of the game
/// (`active`): the path opened; or, for a change, the path of the object changed
/// and then the `FileName` given.
pub open spec fn touched_paths(objects: Map<usize, String>, ev: FileEvent, active: bool) -> Seq<Seq<char>> {
    if is_open_event(ev.id) {
        match (ev.file_object, opened_path(ev)) {
            (Some(_), Some(path)) => if active && candidate_text(path@) {
                seq![path@]
            } else {
                Seq::empty()
            },
            _ => Seq::empty(),
        }
    } else if is_change_event(ev.id) && active {
        let by_object: Seq<Seq<char>> = match ev.file_object {
            Some(obj) => if objects.contains_key(obj) && candidate_text(objects[obj]@) {
                seq![objects[obj]@]
            } else {
                Seq::empty()
            },
            None => Seq::empty(),
        };
        let by_name: Seq<Seq<char>> = match ev.file_name {
            Some(n) => if candidate_text(n@) {
                seq![n@]
            } else {
                Seq::empty()
            },
            None => Seq::empty(),
        };
        by_object + by_name
    } else {
        Seq::empty()
    }
}

/// Writes, metadata changes, deletions and renames (event ids 16, 17, 18, 19, 26 and
/// 27) by a process of the game record the path of the file object they name, when
/// that object is open with a path that can hold a save; so do opens (event ids 12
/// and 30) of such a path. Events of other processes record nothing.
pub proof fn lemma_changes_record_the_object(objects: Map<usize, String>, ev: FileEvent, active: bool)
    ensures
        active && seq![16u16, 17, 18, 19, 26, 27].contains(ev.id) ==> (ev.file_object matches Some(obj) ==> (objects.contains_key(obj)
            && candidate_text(objects[obj]@) ==> touched_paths(objects, ev, active).contains(
            objects[obj]@,
        ))),
        active && seq![12u16, 30].contains(ev.id) && ev.file_object is Some ==> (ev.file_name matches Some(n) ==> (
            candidate_text(n@) ==> touched_paths(objects, ev, active) == seq![n@])),
        !active ==> touched_paths(objects, ev, active).len() == 0,
        ev.id == 14 ==> (ev.file_object matches Some(obj) ==> !objects_after(objects, ev).contains_key(obj)),
{
    let changes = seq![16u16, 17, 18, 19, 26, 27];
    if active && changes.contains(ev.id) {
        let k = choose|k: int| 0 <= k < changes.len() && changes[k] == ev.id;
        assert(k == 0 || k == 1 || k == 2 || k == 3 || k == 4 || k == 5);
        if let Some(obj) = ev.file_object {
            if objects.contains_key(obj) && candidate_text(objects[obj]@) {
                assert(touched_paths(objects, ev, active)[0] == objects[obj]@);
            }
        }
    }
}

/// The paths of the file objects that are open.
pub struct FileTracker {
    objects: HashMap<usize, String>,
}

impl View for FileTracker {
    type V = Map<usize, String>;

    closed spec fn view(&self) -> Map<usize, String> {
        self.objects@
    }
}

fn candidate(path: &String) -> (b: bool)
    ensures
        b == candidate_text(path@),
{
    is_candidate_path(path.as_str())
}

impl FileTracker {
    pub fn new() -> (t: Self)
        ensures
            t@ == Map::<usize, String>::empty(),
    {
        FileTracker { objects: HashMap::new() }
    }

    /// Takes in one event; `active` tells whether it comes from a process of the
    /// game. Returns the paths to record as touched, in order.
    pub fn handle(&mut self, ev: &FileEvent, active: bool) -> (touched: Vec<String>)
        ensures
            final(self)@ == objects_after(old(self)@, *ev),
            touched@.map_values(|p: String| p@) == touched_paths(old(self)@, *ev, active),
    {
        broadcast use vstd::std_specs::hash::group_hash_axioms;

        let mut touched: Vec<String> = Vec::new();
        if ev.id == 12 || ev.id == 30 {
            let path = match &ev.file_name {
                Some(n) => Some(n.clone()),
                None => match &ev.file_path {
                    Some(p) => Some(p.clone()),
                    None => None,
                },
            };
            match (ev.file_object, path) {
                (Some(obj), Some(path)) => {
                    if active && candidate(&path) {
                        touched.push(path.clone());
                    }
                    self.objects.insert(obj, path);
                },
                _ => {},
            }
        } else if ev.id == 14 {
            match ev.file_object {
                Some(obj) => {
                    self.objects.remove(&obj);
                },
                None => {},
            }
        } else if active && (ev.id == 16 || ev.id == 17 || ev.id == 18 || ev.id == 19 || ev.id == 26
            || ev.id == 27) {
            match ev.file_object {
                Some(obj) => match self.objects.get(&obj) {
                    Some(path) => {
                        if candidate(path) {
                            touched.push(path.clone());
                        }
                    },
                    None => {},
                },
                None => {},
            }
            match &ev.file_name {
                Some(n) => {
                    if candidate(n) {
                        touched.push(n.clone());
                    }
                },
                None => {},
            }
        }
        assert(touched@.map_values(|p: String| p@) =~= touched_paths(old(self)@, *ev, active));
        touched
    }
}

} // verus!
