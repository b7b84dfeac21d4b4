//! A selection as the side panel shows it, and the way its constraints are
//! joined.
use std::sync::Arc;
use vstd::prelude::*;

use crate::constraint::Constraint;
use crate::emptyconstraint::EmptyConstraint;
use crate::emptyselection::{
    contains_selection, has_cycle_from, same_selection, views, Color, EmptyTownSelection, HiddenId, SelectionView,
};
use crate::references::{copied_from, is_copy, reaches, ReferenceError};
use crate::database::{first_by_id, towns_shown, DataTable};
use crate::emptyconstraint::passes_selection;
use crate::presenter::{filled, towns_for_selection, with_constraints};
use crate::town::Town;

verus! {

/// How the constraints of a selection combine: every one must hold, or at
/// least one.
#[derive(Debug, Copy, Clone, PartialEq, Eq, Hash, PartialOrd, Ord, Structural)]
pub enum AndOr {
    And,
    Or,
}

impl Default for AndOr {
    fn default() -> (r: Self)
        ensures
            r == AndOr::And,
    {
        AndOr::And
    }
}

impl AndOr {
    /// The SQL keyword for this join.
    pub fn as_sql(self) -> (r: String)
        ensures
            r@ == match self {
                AndOr::And => seq!['A', 'N', 'D'],
                AndOr::Or => seq!['O', 'R'],
            },
    {
        let v: Vec<char> = match self {
            AndOr::And => vec!['A', 'N', 'D'],
            AndOr::Or => vec!['O', 'R'],
        };
        crate::text::string_of(&v)
    }

    /// The key of the translated label of this join.
    pub fn translation_key(self) -> (r: &'static str)
        ensures
            r@ == match self {
                AndOr::And => "selection.and_or.and"@,
                AndOr::Or => "selection.and_or.or"@,
            },
    {
        match self {
            AndOr::And => "selection.and_or.and",
            AndOr::Or => "selection.and_or.or",
        }
    }

    /// The other join.
    pub fn toggled(self) -> (r: AndOr)
        ensures
            r != self,
    {
        match self {
            AndOr::And => AndOr::Or,
            AndOr::Or => AndOr::And,
        }
    }
}

/// A selection with its editable constraints and the towns it matched.
pub struct TownSelection {
    pub collapsed: bool,
    pub hidden_id: HiddenId,
    pub name: String,
    pub constraints: Vec<Constraint>,
    pub constraint_join_mode: AndOr,
    pub color: Color,
    pub towns: Arc<Vec<Town>>,
}

impl View for TownSelection {
    type V = SelectionView;

    /// The selection without its towns and drop down values.
    open spec fn view(&self) -> SelectionView {
        SelectionView {
            name: self.name@,
            constraints: self.constraints@.map_values(|c: Constraint| c@),
            join: self.constraint_join_mode,
        }
    }
}

impl TownSelection {
    /// A selection whose color is fully transparent does not show on the map.
    pub fn is_hidden(&self) -> (r: bool)
        ensures
            r == (self.color.a == 0),
    {
        self.color.a == 0
    }

    /// The selection without its towns and drop down values.
    pub fn partial_clone(&self) -> (r: EmptyTownSelection)
        ensures
            r@ == self@,
            r.name@ == self.name@,
            r.hidden_id@ == self.hidden_id@,
            r.constraint_join_mode == self.constraint_join_mode,
            r.color == self.color,
            r.constraints@.len() == self.constraints@.len(),
            forall|i: int|
                0 <= i < self.constraints@.len() ==> {
                    let c = #[trigger] r.constraints@[i];
                    let d = self.constraints@[i];
                    &&& c.constraint_type == d.constraint_type
                    &&& c.comparator == d.comparator
                    &&& c.value@ == d.value@
                    &&& c.number == d.number
                },
    {
        let mut constraints: Vec<EmptyConstraint> = Vec::new();
        let mut i: usize = 0;
        while i < self.constraints.len()
            invariant
                i <= self.constraints@.len(),
                constraints@.len() == i,
                forall|k: int|
                    0 <= k < i ==> {
                        let c = #[trigger] constraints@[k];
                        let d = self.constraints@[k];
                        &&& c.constraint_type == d.constraint_type
                        &&& c.comparator == d.comparator
                        &&& c.value@ == d.value@
                        &&& c.number == d.number
                    },
            decreases self.constraints@.len() - i,
        {
            constraints.push(self.constraints[i].partial_clone());
            i = i + 1;
        }
        let r = EmptyTownSelection {
            name: self.name.clone(),
            hidden_id: self.hidden_id.clone(),
            constraints,
            constraint_join_mode: self.constraint_join_mode,
            color: self.color,
        };
        assert(r@.constraints =~= self@.constraints);
        r
    }
}

/// `u` refers, directly or through other selections, to a selection
/// named `name`, and its references cannot go round in a circle.
pub open spec fn depends_on(u: SelectionView, all: Seq<SelectionView>, name: Seq<char>) -> bool {
    !has_cycle_from(u, all) && exists|v: SelectionView| #[trigger] reaches(u, all, v) && v.name == name
}

/// Whether some selection of the list has this name.
fn has_name(list: &Vec<EmptyTownSelection>, name: &String) -> (r: bool)
    ensures
        r == exists|i: int| 0 <= i < list@.len() && #[trigger] list@[i].name@ == name@,
{
    let mut i: usize = 0;
    while i < list.len()
        invariant
            i <= list@.len(),
            forall|k: int| 0 <= k < i ==> #[trigger] list@[k].name@ != name@,
        decreases list@.len() - i,
    {
        if list[i].name == *name {
            return true;
        }
        i = i + 1;
    }
    false
}

/// Whether `s` refers, directly or through other selections, to a
/// selection named `name`; never where its references go round in a circle.
fn depends_on_name(s: &EmptyTownSelection, all_selections: &[EmptyTownSelection], name: &String) -> (r: bool)
    ensures
        r == depends_on(s@, views(all_selections@), name@),
{
    let ghost allv = views(all_selections@);
    let ghost u = s@;
    match s.all_referenced_selections(all_selections) {
        Ok(list) => {
            let found = has_name(&list, name);
            proof {
                if found {
                    let i = choose|i: int| 0 <= i < list@.len() && #[trigger] list@[i].name@ == name@;
                    assert(views(list@).contains(list@[i]@)) by {
                        assert(views(list@)[i] == list@[i]@);
                    }
                    assert(reaches(u, allv, list@[i]@));
                } else {
                    assert forall|v: SelectionView| #[trigger] reaches(u, allv, v) implies v.name != name@ by {
                        assert(views(list@).contains(v));
                        let i = choose|i: int| 0 <= i < views(list@).len() && views(list@)[i] == v;
                        assert(list@[i]@ == v);
                    }
                }
            }
            found
        },
        Err(_) => false,
    }
}

/// The positions of the selections to fetch anew after the one at `index`
/// changed: every other selection that refers to it, directly or through
/// other selections, in the order of the list. A selection whose
/// references go round in a circle is left out.
pub fn dependents_to_refresh(selections: &[EmptyTownSelection], index: usize) -> (r: Vec<usize>)
    requires
        index < selections@.len(),
    ensures
        forall|i: int, j: int| 0 <= i < j < r@.len() ==> r@[i] < r@[j],
        forall|k: usize|
            #[trigger] r@.contains(k) <==> (k < selections@.len() && k != index && depends_on(
                selections@[k as int]@,
                views(selections@),
                selections@[index as int].name@,
            )),
{
    let ghost allv = views(selections@);
    let name = &selections[index].name;
    let mut r: Vec<usize> = Vec::new();
    let mut k: usize = 0;
    while k < selections.len()
        invariant
            allv == views(selections@),
            index < selections@.len(),
            *name == selections@[index as int].name,
            k <= selections@.len(),
            forall|i: int, j: int| 0 <= i < j < r@.len() ==> r@[i] < r@[j],
            forall|i: int| 0 <= i < r@.len() ==> r@[i] < k,
            forall|m: usize|
                #[trigger] r@.contains(m) <==> (m < k && m != index && depends_on(
                    selections@[m as int]@,
                    allv,
                    name@,
                )),
        decreases selections@.len() - k,
    {
        let ghost r0 = r@;
        let dep = k != index && depends_on_name(&selections[k], selections, name);
        assert(dep == (k != index && depends_on(selections@[k as int]@, allv, name@)));
        if dep {
            r.push(k);
            proof {
                assert forall|m: usize| #[trigger] r@.contains(m) <==> (m < k + 1 && m != index && depends_on(
                    selections@[m as int]@,
                    allv,
                    name@,
                )) by {
                    assert(r@ == r0.push(k));
                    if m == k {
                        assert(r@[r@.len() - 1] == m);
                        assert(m != index && depends_on(selections@[m as int]@, allv, name@));
                    } else if r@.contains(m) {
                        let i = choose|i: int| 0 <= i < r@.len() && r@[i] == m;
                        assert(i < r0.len());
                        assert(r0[i] == m);
                        assert(r0.contains(m));
                    } else if r0.contains(m) {
                        let i = choose|i: int| 0 <= i < r0.len() && r0[i] == m;
                        assert(r@[i] == m);
                    }
                }
            }
        } else {
            proof {
                assert forall|m: usize| #[trigger] r@.contains(m) <==> (m < k + 1 && m != index && depends_on(
                    selections@[m as int]@,
                    allv,
                    name@,
                )) by {
                    if m == k && r@.contains(m) {
                        let i = choose|i: int| 0 <= i < r0.len() && r0[i] == m;
                        assert(r0[i] < k);
                    }
                }
            }
        }
        k = k + 1;
    }
    r
}

impl TownSelection {
    /// The selections that refer to this one, directly or through other
    /// selections, each once (in the order of `all_selections`). A
    /// selection whose references go round in a circle counts for none.
    pub fn get_dependents(&self, all_selections: &[EmptyTownSelection]) -> (r: Vec<EmptyTownSelection>)
        ensures
            forall|u: SelectionView|
                #[trigger] views(r@).contains(u) <==> (views(all_selections@).contains(u) && depends_on(
                    u,
                    views(all_selections@),
                    self.name@,
                )),
            views(r@).no_duplicates(),
            forall|i: int| 0 <= i < r@.len() ==> #[trigger] copied_from(all_selections@, r@[i]),
    {
        let ghost allv = views(all_selections@);
        let mut r: Vec<EmptyTownSelection> = Vec::new();
        let mut k: usize = 0;
        while k < all_selections.len()
            invariant
                allv == views(all_selections@),
                k <= all_selections@.len(),
                forall|u: SelectionView|
                    #[trigger] views(r@).contains(u) <==> exists|j: int|
                        0 <= j < k && allv[j] == u && depends_on(u, allv, self.name@),
                views(r@).no_duplicates(),
                forall|i: int| 0 <= i < r@.len() ==> #[trigger] copied_from(all_selections@, r@[i]),
            decreases all_selections@.len() - k,
        {
            let s = &all_selections[k];
            let ghost u = allv[k as int];
            assert(s@ == u);
            let dep = depends_on_name(s, all_selections, &self.name);
            assert(dep == depends_on(u, allv, self.name@));
            let ghost r0 = r@;
            if dep && !contains_selection(&r, s) {
                r.push(s.clone());
                proof {
                    assert(views(r@) =~= views(r0).push(u));
                    assert(is_copy(all_selections@[k as int], r@[r@.len() - 1]));
                    assert(copied_from(all_selections@, r@[r@.len() - 1]));
                    assert forall|i: int| 0 <= i < r@.len() implies #[trigger] copied_from(all_selections@, r@[i]) by {
                        if i < r0.len() {
                            assert(r@[i] == r0[i]);
                        }
                    }
                }
            }
            proof {
                assert forall|v: SelectionView|
                    #[trigger] views(r@).contains(v) <==> exists|j: int|
                        0 <= j < k + 1 && allv[j] == v && depends_on(v, allv, self.name@) by {
                    if views(r@).contains(v) && !views(r0).contains(v) {
                        assert(allv[k as int] == v);
                    }
                    if exists|j: int| 0 <= j < k + 1 && allv[j] == v && depends_on(v, allv, self.name@) {
                        let j = choose|j: int| 0 <= j < k + 1 && allv[j] == v && depends_on(v, allv, self.name@);
                        if j < k {
                            assert(views(r0).contains(v));
                            let i = choose|i: int| 0 <= i < views(r0).len() && views(r0)[i] == v;
                            assert(views(r@)[i] == v);
                        } else {
                            if views(r0).contains(v) {
                                let i = choose|i: int| 0 <= i < views(r0).len() && views(r0)[i] == v;
                                assert(views(r@)[i] == v);
                            } else {
                                assert(views(r@)[r@.len() - 1] == v);
                            }
                        }
                    }
                }
            }
            k = k + 1;
        }
        proof {
            assert forall|u: SelectionView|
                #[trigger] views(r@).contains(u) <==> (allv.contains(u) && depends_on(u, allv, self.name@)) by {
                if allv.contains(u) && depends_on(u, allv, self.name@) {
                    let j = choose|j: int| 0 <= j < allv.len() && allv[j] == u;
                    assert(exists|j2: int| 0 <= j2 < k && allv[j2] == u && depends_on(u, allv, self.name@));
                }
            }
        }
        r
    }

    /// Gets the selection ready to be filled anew: fails, leaving it as it
    /// is, where following its references can go round in a circle;
    /// otherwise drops the drop down values of every constraint not in
    /// `keep_ddv`, and gives the selection without its towns, to ask for
    /// its towns with.
    pub fn prepare_refresh(&mut self, keep_ddv: &[EmptyConstraint], all_selections: &[EmptyTownSelection]) -> (r: Result<
        EmptyTownSelection,
        ReferenceError,
    >)
        ensures
            r is Err <==> has_cycle_from(old(self)@, views(all_selections@)),
            r is Err ==> *final(self) == *old(self),
            r matches Ok(e) ==> {
                &&& e@ == old(self)@
                &&& final(self)@ == old(self)@
                &&& final(self).name == old(self).name
                &&& final(self).hidden_id == old(self).hidden_id
                &&& final(self).color == old(self).color
                &&& final(self).collapsed == old(self).collapsed
                &&& final(self).towns == old(self).towns
                &&& final(self).constraints@.len() == old(self).constraints@.len()
                &&& forall|i: int|
                    0 <= i < old(self).constraints@.len() ==> #[trigger] final(self).constraints@[i].drop_down_values
                        == if keep_ddv@.map_values(|c: EmptyConstraint| c@).contains(old(self).constraints@[i]@) {
                        old(self).constraints@[i].drop_down_values
                    } else {
                        None
                    }
            },
    {
        let partial = self.partial_clone();
        if let Err(e) = partial.all_referenced_selections(all_selections) {
            return Err(e);
        }
        let ghost c0 = self.constraints@;
        let ghost kv = keep_ddv@.map_values(|c: EmptyConstraint| c@);
        let mut i: usize = 0;
        while i < self.constraints.len()
            invariant
                kv == keep_ddv@.map_values(|c: EmptyConstraint| c@),
                self.name == old(self).name,
                self.hidden_id == old(self).hidden_id,
                self.color == old(self).color,
                self.collapsed == old(self).collapsed,
                self.towns == old(self).towns,
                self.constraint_join_mode == old(self).constraint_join_mode,
                c0 == old(self).constraints@,
                self.constraints@.len() == c0.len(),
                i <= c0.len(),
                forall|k: int| 0 <= k < c0.len() ==> #[trigger] self.constraints@[k]@ == c0[k]@,
                forall|k: int|
                    0 <= k < c0.len() ==> #[trigger] self.constraints@[k].drop_down_values == if k < i && !kv.contains(c0[k]@) {
                        None
                    } else {
                        c0[k].drop_down_values
                    },
            decreases c0.len() - i,
        {
            let keep = constraint_listed(keep_ddv, &self.constraints[i]);
            if !keep {
                let mut c = self.constraints.remove(i);
                c.drop_down_values = None;
                self.constraints.insert(i, c);
            }
            i = i + 1;
        }
        assert(self@.constraints =~= old(self)@.constraints);
        Ok(partial)
    }
}

impl TownSelection {
    /// Keeps what a request for this selection's towns answered: the towns
    /// it fetched, or, where it failed, the selection as it was and the
    /// error.
    pub fn store_towns(&mut self, fetched: Result<Arc<Vec<Town>>, ReferenceError>) -> (r: Result<(), ReferenceError>)
        ensures
            match fetched {
                Ok(t) => r is Ok && final(self).towns == t,
                Err(e) => r == Err::<(), ReferenceError>(e) && final(self).towns == old(self).towns,
            },
            final(self).name == old(self).name,
            final(self).hidden_id == old(self).hidden_id,
            final(self).constraints == old(self).constraints,
            final(self).constraint_join_mode == old(self).constraint_join_mode,
            final(self).color == old(self).color,
            final(self).collapsed == old(self).collapsed,
    {
        match fetched {
            Ok(t) => {
                self.towns = t;
                Ok(())
            },
            Err(e) => Err(e),
        }
    }

    /// Fills the selection anew from the world: fails, changing nothing,
    /// where following its references can go round in a circle; otherwise
    /// drops the drop down values of every constraint not in `keep_ddv`
    /// and keeps the towns that the world gives for the selection (see
    /// `towns_for_selection`).
    pub fn refresh_self(&mut self, db: &DataTable, keep_ddv: &[EmptyConstraint], all_selections: &[EmptyTownSelection]) -> (r: Result<(), ReferenceError>)
        ensures
            ({
                let allv = views(all_selections@);
                let s = with_constraints(old(self)@, filled(old(self)@.constraints));
                &&& r is Err <==> (has_cycle_from(old(self)@, allv) || has_cycle_from(s, allv))
                &&& has_cycle_from(old(self)@, allv) ==> *final(self) == *old(self)
                &&& final(self)@ == old(self)@
                &&& final(self).name == old(self).name
                &&& final(self).hidden_id == old(self).hidden_id
                &&& final(self).color == old(self).color
                &&& final(self).collapsed == old(self).collapsed
                &&& final(self).constraints@.len() == old(self).constraints@.len()
                &&& !has_cycle_from(old(self)@, allv) ==> forall|i: int|
                    0 <= i < old(self).constraints@.len() ==> #[trigger] final(self).constraints@[i].drop_down_values
                        == if keep_ddv@.map_values(|c: EmptyConstraint| c@).contains(old(self).constraints@[i]@) {
                        old(self).constraints@[i].drop_down_values
                    } else {
                        None
                    }
                &&& r is Err ==> final(self).towns == old(self).towns
                &&& r is Ok ==> {
                    &&& filled(old(self)@.constraints).len() == 0 ==> final(self).towns@.len() == 0
                    &&& filled(old(self)@.constraints).len() > 0 ==> final(self).towns@.map_values(|t: Town| t@)
                        == towns_shown(first_by_id(db.towns@).filter(passes_selection(s, allv)))
                }
            }),
    {
        let request = self.prepare_refresh(keep_ddv, all_selections)?;
        let fetched = match towns_for_selection(db, &request, all_selections) {
            Ok(v) => Ok(Arc::new(v)),
            Err(e) => Err(e),
        };
        self.store_towns(fetched)
    }
}

/// The views of a list of selections.
pub open spec fn town_views(s: Seq<TownSelection>) -> Seq<SelectionView> {
    s.map_values(|t: TownSelection| t@)
}

/// The views after importing: in order, each imported selection that is
/// not there yet (by name, constraints and join, counting the ones added
/// before it) is added at the end.
pub open spec fn imported_views(existing: Seq<SelectionView>, imported: Seq<SelectionView>) -> Seq<SelectionView>
    decreases imported.len(),
{
    if imported.len() == 0 {
        existing
    } else {
        let before = imported_views(existing, imported.drop_last());
        if before.contains(imported.last()) {
            before
        } else {
            before.push(imported.last())
        }
    }
}

/// `t` is `e` made ready for the side panel: the same selection, with its
/// header open, no towns and no drop down values yet.
pub open spec fn filled_from(t: TownSelection, e: EmptyTownSelection) -> bool {
    &&& t@ == e@
    &&& t.hidden_id@ == e.hidden_id@
    &&& t.color == e.color
    &&& !t.collapsed
    &&& t.towns@.len() == 0
    &&& forall|i: int| 0 <= i < t.constraints@.len() ==> (#[trigger] t.constraints@[i]).drop_down_values is None
}

/// Whether some selection of the list has the name, constraints and join
/// of `e`.
fn has_selection(list: &Vec<TownSelection>, e: &EmptyTownSelection) -> (r: bool)
    ensures
        r == town_views(list@).contains(e@),
{
    let mut i: usize = 0;
    while i < list.len()
        invariant
            i <= list@.len(),
            forall|k: int| 0 <= k < i ==> #[trigger] list@[k]@ != e@,
        decreases list@.len() - i,
    {
        let p = list[i].partial_clone();
        if same_selection(&p, e) {
            assert(town_views(list@)[i as int] == e@);
            return true;
        }
        i = i + 1;
    }
    proof {
        if town_views(list@).contains(e@) {
            let k = choose|k: int| 0 <= k < town_views(list@).len() && town_views(list@)[k] == e@;
            assert(list@[k]@ == e@);
        }
    }
    false
}

/// No imported selection before the one at `k` has its name, constraints
/// and join.
pub open spec fn first_of_its_view(imported: Seq<EmptyTownSelection>, k: int) -> bool {
    forall|k2: int| 0 <= k2 < k ==> #[trigger] imported[k2]@ != imported[k]@
}

/// Adds the imported selections that are not there yet, in order, each
/// made ready for the side panel; a selection is there when one with the
/// same name, constraints and join is, an imported one added before it
/// included. Each added selection is made from the first imported one with
/// its name, constraints and join (its color and hidden id too).
pub fn import_selections(selections: &mut Vec<TownSelection>, imported: &[EmptyTownSelection])
    ensures
        town_views(final(selections)@) == imported_views(town_views(old(selections)@), views(imported@)),
        old(selections)@.len() <= final(selections)@.len(),
        forall|i: int| 0 <= i < old(selections)@.len() ==> #[trigger] final(selections)@[i] == old(selections)@[i],
        forall|j: int|
            old(selections)@.len() <= j < final(selections)@.len() ==> exists|k: int|
                #![trigger imported@[k]]
                0 <= k < imported@.len() && first_of_its_view(imported@, k) && filled_from(
                    #[trigger] final(selections)@[j],
                    imported@[k],
                ),
{
    let ghost start = town_views(selections@);
    let ghost old_sel = selections@;
    let ghost iv = views(imported@);
    let mut i: usize = 0;
    while i < imported.len()
        invariant
            start == town_views(old_sel),
            iv == views(imported@),
            i <= imported@.len(),
            town_views(selections@) == imported_views(start, iv.take(i as int)),
            old_sel.len() <= selections@.len(),
            forall|m: int| 0 <= m < old_sel.len() ==> #[trigger] selections@[m] == old_sel[m],
            forall|j: int|
                old_sel.len() <= j < selections@.len() ==> exists|k: int|
                    0 <= k < imported@.len() && first_of_its_view(imported@, k) && filled_from(
                        #[trigger] selections@[j],
                        imported@[k],
                    ),
            forall|k2: int| 0 <= k2 < i ==> town_views(selections@).contains(#[trigger] iv[k2]),
        decreases imported@.len() - i,
    {
        proof {
            assert(iv.take(i + 1).drop_last() =~= iv.take(i as int));
            assert(iv.take(i + 1).last() == imported@[i as int]@);
        }
        let e = &imported[i];
        if !has_selection(selections, e) {
            let t = e.fill();
            let ghost before = selections@;
            proof {
                assert forall|k2: int| 0 <= k2 < i implies #[trigger] imported@[k2]@ != imported@[i as int]@ by {
                    assert(iv[k2] == imported@[k2]@);
                    assert(town_views(before).contains(iv[k2]));
                }
                assert(first_of_its_view(imported@, i as int));
            }
            selections.push(t);
            proof {
                assert(town_views(selections@) =~= town_views(before).push(e@));
                assert(filled_from(selections@[selections@.len() - 1], imported@[i as int]));
                assert forall|j: int| old_sel.len() <= j < selections@.len() implies exists|k: int|
                    0 <= k < imported@.len() && first_of_its_view(imported@, k) && filled_from(
                        #[trigger] selections@[j],
                        imported@[k],
                    ) by {
                    if j < before.len() {
                        assert(selections@[j] == before[j]);
                    } else {
                        assert(filled_from(selections@[j], imported@[i as int]));
                    }
                }
                assert forall|k2: int| 0 <= k2 < i + 1 implies town_views(selections@).contains(#[trigger] iv[k2]) by {
                    if k2 < i {
                        let q = choose|q: int| 0 <= q < town_views(before).len() && town_views(before)[q] == iv[k2];
                        assert(town_views(selections@)[q] == iv[k2]);
                    } else {
                        assert(town_views(selections@)[before.len() as int] == iv[k2]);
                    }
                }
            }
        } else {
            proof {
                assert(iv[i as int] == e@);
            }
        }
        i = i + 1;
    }
    assert(iv.take(i as int) =~= iv);
}

/// Whether some constraint of the list filters as `c` does.
fn constraint_listed(list: &[EmptyConstraint], c: &Constraint) -> (r: bool)
    ensures
        r == list@.map_values(|x: EmptyConstraint| x@).contains(c@),
{
    let ghost lv = list@.map_values(|x: EmptyConstraint| x@);
    let mut i: usize = 0;
    while i < list.len()
        invariant
            lv == list@.map_values(|x: EmptyConstraint| x@),
            i <= list@.len(),
            forall|k: int| 0 <= k < i ==> #[trigger] lv[k] != c@,
        decreases list@.len() - i,
    {
        let x = &list[i];
        let same_number = match (x.number, c.number) {
            (Some(p), Some(q)) => p == q,
            (None, None) => true,
            _ => false,
        };
        if x.constraint_type == c.constraint_type && x.comparator == c.comparator && x.value == c.value && same_number {
            assert(lv[i as int] == c@);
            return true;
        }
        assert(lv[i as int] != c@);
        i = i + 1;
    }
    false
}

impl Default for TownSelection {
    /// A new selection (see `EmptyTownSelection::default`), with its header
    /// open and no towns yet.
    fn default() -> (r: Self)
        ensures
            !r.collapsed,
            r.name@.len() == 6,
            r.constraints@.len() == 1,
            r.constraints@[0].value@.len() == 0,
            r.constraints@[0].constraint_type == crate::constraint::ConstraintType::PlayerName,
            r.constraints@[0].comparator == crate::constraint::Comparator::Equal,
            r.constraint_join_mode == AndOr::And,
            r.color == crate::emptyselection::green(),
            r.towns@.len() == 0,
    {
        let e = EmptyTownSelection::default();
        e.fill()
    }
}

} // verus!
