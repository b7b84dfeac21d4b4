//! The decisions of the side panel and the window that need no drawing:
//! editing lists of selections and constraints, what to fetch anew, and
//! the colors that follow the dark mode.
use vstd::prelude::*;

use crate::emptyconstraint::EmptyConstraint;
use crate::emptyselection::Color;
use crate::preferences::{DarkModePref, Preferences};

verus! {

/// An edit of a list of selections or of constraints.
#[derive(Debug, Clone, Copy, PartialEq, Eq, Structural)]
pub enum Change {
    /// Append a new entry.
    Add,
    /// Swap the entry with the one before it.
    MoveUp(usize),
    /// Take the entry out.
    Remove(usize),
    /// Swap the entry with the one after it.
    MoveDown(usize),
}

/// Whether a change can be applied to a list of `len` entries: an entry
/// to remove must exist, and so must an entry to move up (the first one
/// stays where it is).
pub open spec fn change_applies(change: Change, len: nat) -> bool {
    match change {
        Change::Add => true,
        Change::MoveUp(i) => i == 0 || i < len,
        Change::Remove(i) => i < len,
        Change::MoveDown(i) => i < usize::MAX,
    }
}

/// The list after the change; `fresh` is the entry that is appended, or
/// that takes the place of the last one removed so that the list is never
/// left empty.
pub open spec fn changed<T>(s: Seq<T>, change: Change, fresh: T) -> Seq<T> {
    match change {
        Change::Add => s.push(fresh),
        Change::MoveUp(i) => if i >= 1 && i < s.len() {
            s.update(i as int, s[i - 1]).update(i - 1, s[i as int])
        } else {
            s
        },
        Change::Remove(i) => if s.remove(i as int).len() == 0 {
            seq![fresh]
        } else {
            s.remove(i as int)
        },
        Change::MoveDown(i) => if i + 1 < s.len() {
            s.update(i as int, s[i + 1]).update(i + 1, s[i as int])
        } else {
            s
        },
    }
}

/// Applies an edit to a list: appends `fresh`, swaps two neighbours, or
/// removes an entry (and puts `fresh` in where the list would be empty).
pub fn apply_change<T>(list: &mut Vec<T>, change: Change, fresh: T)
    requires
        change_applies(change, old(list)@.len()),
    ensures
        final(list)@ == changed(old(list)@, change, fresh),
{
    match change {
        Change::Add => {
            list.push(fresh);
        },
        Change::MoveUp(index) => {
            if index >= 1 {
                let ghost s = list@;
                let x = list.remove(index);
                list.insert(index - 1, x);
                assert(list@ =~= s.update(index as int, s[index - 1]).update(index - 1, s[index as int]));
            }
        },
        Change::Remove(index) => {
            let _element = list.remove(index);
            if list.len() == 0 {
                list.push(fresh);
            }
        },
        Change::MoveDown(index) => {
            if index + 1 < list.len() {
                let ghost s = list@;
                let x = list.remove(index + 1);
                list.insert(index, x);
                assert(list@ =~= s.update(index as int, s[index + 1]).update(index + 1, s[index as int]));
            }
        },
    }
}

/// A list of selections or of constraints is never left empty: after an
/// edit that can be applied, a list that had an entry still has one, and
/// removing an entry always leaves at least one.
pub proof fn lemma_change_keeps_an_entry<T>(s: Seq<T>, change: Change, fresh: T)
    requires
        change_applies(change, s.len()),
        s.len() >= 1 || change is Add || change is Remove,
    ensures
        changed(s, change, fresh).len() >= 1,
{
}

/// Moving an entry up and then moving it down again gives back the list.
pub proof fn lemma_move_up_then_down<T>(s: Seq<T>, i: usize, fresh: T)
    requires
        1 <= i < s.len(),
    ensures
        changed(changed(s, Change::MoveUp(i), fresh), Change::MoveDown((i - 1) as usize), fresh) == s,
{
    let t = changed(s, Change::MoveUp(i), fresh);
    assert(changed(t, Change::MoveDown((i - 1) as usize), fresh) =~= s);
}

/// Moving an entry down and then moving it up again gives back the list.
pub proof fn lemma_move_down_then_up<T>(s: Seq<T>, i: usize, fresh: T)
    requires
        i + 1 < s.len(),
        i < usize::MAX,
    ensures
        changed(changed(s, Change::MoveDown(i), fresh), Change::MoveUp((i + 1) as usize), fresh) == s,
{
    let t = changed(s, Change::MoveDown(i), fresh);
    assert(changed(t, Change::MoveUp((i + 1) as usize), fresh) =~= s);
}

/// Adding an entry and then removing it gives back a list that had one.
pub proof fn lemma_add_then_remove<T>(s: Seq<T>, fresh: T)
    requires
        1 <= s.len() <= usize::MAX,
    ensures
        changed(changed(s, Change::Add, fresh), Change::Remove(s.len() as usize), fresh) == s,
{
    let t = changed(s, Change::Add, fresh);
    assert(t.remove(s.len() as int) =~= s);
}

/// What of a selection must be fetched anew.
pub enum Refresh {
    /// The whole selection.
    Complete,
    /// The towns, keeping the drop down values of these constraints.
    InSitu(Vec<EmptyConstraint>),
    /// Nothing.
    Nothing,
}

/// What a selection must fetch anew after an edit: all of it when a
/// constraint was added or removed or the join was switched; otherwise its
/// towns (keeping the lists of the edited constraints) when a constraint
/// was edited; otherwise what the rest of the editing asked for.
pub fn refresh_after(
    constraint_change: Option<Change>,
    join_toggled: bool,
    edited: Vec<EmptyConstraint>,
    otherwise: Refresh,
) -> (r: Refresh)
    ensures
        (constraint_change matches Some(c) && (c is Add || c is Remove)) || join_toggled ==> r is Complete,
        !((constraint_change matches Some(c) && (c is Add || c is Remove)) || join_toggled) && edited@.len() > 0 ==> (r matches Refresh::InSitu(k)
            && k@ == edited@),
        !((constraint_change matches Some(c) && (c is Add || c is Remove)) || join_toggled) && edited@.len() == 0 ==> r
            == otherwise,
{
    let complete = match constraint_change {
        Some(Change::Add) | Some(Change::Remove(_)) => true,
        _ => join_toggled,
    };
    if complete {
        Refresh::Complete
    } else if edited.len() > 0 {
        Refresh::InSitu(edited)
    } else {
        otherwise
    }
}

/// How far loading a world has come.
#[derive(Debug, Clone)]
pub enum Progress {
    Idle,
    BackendCrashed(String),
    Fetching,
    LoadingFile,
}

/// What the window shows.
#[derive(Debug, Clone)]
pub enum State {
    Uninitialized(Progress),
    Show,
}

/// How the towns of a group without selection (all towns, or the ghost
/// towns) are drawn.
#[derive(Debug, Clone, Copy, PartialEq, Eq, Structural)]
pub struct DefaultTownGroup {
    pub enabled: bool,
    pub color: Color,
}

/// A gray of the given brightness, fully opaque.
pub open spec fn gray(level: u8) -> Color {
    Color { r: level, g: level, b: level, a: 255 }
}

/// The color of all towns on a dark background.
pub fn all_towns_dark() -> (r: Color)
    ensures
        r == gray(60),
{
    Color { r: 60, g: 60, b: 60, a: 255 }
}

/// The color of all towns on a light background.
pub fn all_towns_light() -> (r: Color)
    ensures
        r == gray(180),
{
    Color { r: 180, g: 180, b: 180, a: 255 }
}

/// The color of all towns after switching to `mode`: the default color of
/// the other mode becomes the default color of this one; any color the
/// user chose stays.
pub open spec fn all_towns_color_for(mode: DarkModePref, color: Color) -> Color {
    match mode {
        DarkModePref::Dark => if color == gray(180) {
            gray(60)
        } else {
            color
        },
        DarkModePref::Light => if color == gray(60) {
            gray(180)
        } else {
            color
        },
        DarkModePref::FollowSystem => color,
    }
}

/// Records the dark mode preference and adapts the color of all towns to
/// it (`Data::apply_darkmode` without the switch of the window's look).
pub fn apply_darkmode(preferences: &mut Preferences, settings_all: &mut DefaultTownGroup, mode: DarkModePref)
    ensures
        final(preferences).darkmode == mode,
        final(preferences).auto_delete == old(preferences).auto_delete,
        final(preferences).cache_size == old(preferences).cache_size,
        final(preferences).language == old(preferences).language,
        final(preferences).telemetry == old(preferences).telemetry,
        final(settings_all).enabled == old(settings_all).enabled,
        final(settings_all).color == all_towns_color_for(mode, old(settings_all).color),
{
    preferences.darkmode = mode;
    match mode {
        DarkModePref::FollowSystem => {},
        DarkModePref::Dark => {
            if settings_all.color == all_towns_light() {
                settings_all.color = all_towns_dark();
            }
        },
        DarkModePref::Light => {
            if settings_all.color == all_towns_dark() {
                settings_all.color = all_towns_light();
            }
        },
    }
}

/// The group settings a fresh start has: all towns in the dark default
/// color, ghost towns in red, both shown.
pub fn default_town_groups() -> (r: (DefaultTownGroup, DefaultTownGroup))
    ensures
        r.0 == (DefaultTownGroup { enabled: true, color: gray(60) }),
        r.1 == (DefaultTownGroup { enabled: true, color: Color { r: 255, g: 0, b: 0, a: 255 } }),
{
    (
        DefaultTownGroup { enabled: true, color: all_towns_dark() },
        DefaultTownGroup { enabled: true, color: Color { r: 255, g: 0, b: 0, a: 255 } },
    )
}

/// Choosing the same dark mode again changes the color of all towns no
/// further.
pub proof fn lemma_darkmode_idempotent(mode: DarkModePref, color: Color)
    ensures
        all_towns_color_for(mode, all_towns_color_for(mode, color)) == all_towns_color_for(mode, color),
{
}

/// Switching from the light default to dark and back gives the light
/// default again, and likewise the other way round.
pub proof fn lemma_darkmode_round_trip()
    ensures
        all_towns_color_for(DarkModePref::Light, all_towns_color_for(DarkModePref::Dark, gray(180))) == gray(180),
        all_towns_color_for(DarkModePref::Dark, all_towns_color_for(DarkModePref::Light, gray(60))) == gray(60),
{
}

} // verus!
