//! The mailing list of the players who own the towns picked on the map.
use std::collections::HashSet;
use vstd::prelude::*;

use crate::references::{lemma_insert_sorted, name_le, strictly_sorted};
use crate::text::{chars_of, lemma_lex_antisymmetric, lemma_lex_reflexive, lex_le, push_chars};
use crate::town::Town;

verus! {

/// The town is picked and its owner is named `n`.
pub open spec fn owned_by(t: Town, picked: Set<u32>, n: Seq<char>) -> bool {
    picked.contains(t.id) && t.player_name is Some && t.player_name->0@ == n
}

/// Some town of the list is picked and owned by a player named `n`.
pub open spec fn is_owner(towns: Seq<Town>, picked: Set<u32>, n: Seq<char>) -> bool {
    exists|i: int| 0 <= i < towns.len() && #[trigger] owned_by(towns[i], picked, n)
}

/// The names with "; " between them.
pub open spec fn semicolon_joined(names: Seq<Seq<char>>) -> Seq<char>
    decreases names.len(),
{
    if names.len() == 0 {
        Seq::empty()
    } else if names.len() == 1 {
        names[0]
    } else {
        semicolon_joined(names.drop_last()) + seq![';', ' '] + names.last()
    }
}

/// The texts of a list of strings.
pub open spec fn texts(v: Seq<String>) -> Seq<Seq<char>> {
    v.map_values(|s: String| s@)
}

/// Adds a name to a sorted list of names that has no name twice.
fn insert_name(out: &mut Vec<String>, name: &String)
    requires
        strictly_sorted(texts(old(out)@)),
    ensures
        strictly_sorted(texts(final(out)@)),
        forall|n: Seq<char>| #[trigger] texts(final(out)@).contains(n) <==> (texts(old(out)@).contains(n) || n == name@),
{
    let ghost s = texts(out@);
    let mut pos: usize = 0;
    while pos < out.len() && name_le(&out[pos], name)
        invariant
            s == texts(out@),
            pos <= out@.len(),
            forall|q: int| 0 <= q < pos ==> lex_le(#[trigger] s[q], name@),
        decreases out@.len() - pos,
    {
        pos = pos + 1;
    }
    if pos > 0 && out[pos - 1] == *name {
        proof {
            assert(s[pos - 1] == name@);
        }
        return;
    }
    proof {
        assert forall|q: int| 0 <= q < s.len() implies #[trigger] s[q] != name@ by {
            if s[q] == name@ {
                if q < pos {
                    assert(s[pos - 1] != name@);
                    assert(lex_le(s[pos - 1], name@));
                    assert(lex_le(s[q], s[pos - 1]));
                    lemma_lex_antisymmetric(s[pos - 1], name@);
                } else if q == pos {
                    lemma_lex_reflexive(name@);
                } else {
                    assert(lex_le(s[pos as int], s[q]));
                }
            }
        }
        lemma_insert_sorted(s, pos as int, name@);
    }
    out.insert(pos, name.clone());
    proof {
        assert(texts(out@) =~= s.insert(pos as int, name@));
        assert forall|n: Seq<char>| #[trigger] texts(out@).contains(n) <==> (s.contains(n) || n == name@) by {
            let t = texts(out@);
            if s.contains(n) {
                let q = choose|q: int| 0 <= q < s.len() && s[q] == n;
                if q < pos {
                    assert(t[q] == n);
                } else {
                    assert(t[q + 1] == n);
                }
            }
            if n == name@ {
                assert(t[pos as int] == n);
            }
            if t.contains(n) && n != name@ {
                let q = choose|q: int| 0 <= q < t.len() && t[q] == n;
                if q < pos {
                    assert(s[q] == n);
                } else {
                    assert(q != pos);
                    assert(s[q - 1] == n);
                }
            }
        }
    }
}

/// Adds the owners of the picked towns of the list to a sorted list of
/// names that has no name twice.
fn add_owners(out: &mut Vec<String>, towns: &[Town], picked: &HashSet<u32>)
    requires
        strictly_sorted(texts(old(out)@)),
    ensures
        strictly_sorted(texts(final(out)@)),
        forall|n: Seq<char>|
            #[trigger] texts(final(out)@).contains(n) <==> (texts(old(out)@).contains(n) || is_owner(towns@, picked@, n)),
{
    broadcast use vstd::std_specs::hash::group_hash_axioms;

    let ghost start = texts(out@);
    let mut i: usize = 0;
    while i < towns.len()
        invariant
            start == texts(old(out)@),
            i <= towns@.len(),
            strictly_sorted(texts(out@)),
            forall|n: Seq<char>|
                #[trigger] texts(out@).contains(n) <==> (start.contains(n) || exists|k: int|
                    0 <= k < i && #[trigger] owned_by(towns@[k], picked@, n)),
        decreases towns@.len() - i,
    {
        let t = &towns[i];
        let ghost before = texts(out@);
        if picked.contains(&t.id) {
            match &t.player_name {
                Some(p) => {
                    insert_name(out, p);
                },
                None => {},
            }
        }
        proof {
            assert forall|n: Seq<char>| #[trigger] texts(out@).contains(n) <==> (start.contains(n) || exists|k: int|
                0 <= k < i + 1 && #[trigger] owned_by(towns@[k], picked@, n)) by {
                if owned_by(towns@[i as int], picked@, n) {
                    assert(texts(out@).contains(n));
                }
                if exists|k: int| 0 <= k < i + 1 && #[trigger] owned_by(towns@[k], picked@, n) {
                    let k = choose|k: int| 0 <= k < i + 1 && #[trigger] owned_by(towns@[k], picked@, n);
                    if k < i {
                        assert(before.contains(n));
                    }
                }
                if texts(out@).contains(n) && !before.contains(n) {
                    assert(owned_by(towns@[i as int], picked@, n));
                }
            }
        }
        i = i + 1;
    }
    proof {
        assert forall|n: Seq<char>| #[trigger] texts(out@).contains(n) <==> (start.contains(n) || is_owner(towns@, picked@, n)) by {
            if is_owner(towns@, picked@, n) {
                let k = choose|k: int| 0 <= k < towns@.len() && #[trigger] owned_by(towns@[k], picked@, n);
                assert(owned_by(towns@[k], picked@, n));
            }
        }
    }
}

/// The mailing list of the picked towns: the names of their owners, each
/// once, in alphabetical order (the order of `str`), with "; " between
/// them. Towns that no player owns add nothing.
pub fn mailing_list(all_towns: &[Town], ghost_towns: &[Town], picked: &HashSet<u32>) -> (r: String)
    ensures
        exists|names: Seq<Seq<char>>|
            {
                &&& strictly_sorted(names)
                &&& forall|n: Seq<char>|
                    #[trigger] names.contains(n) <==> is_owner(all_towns@ + ghost_towns@, picked@, n)
                &&& r@ == semicolon_joined(names)
            },
{
    let mut out: Vec<String> = Vec::new();
    assert(texts(out@) =~= Seq::<Seq<char>>::empty());
    add_owners(&mut out, all_towns, picked);
    add_owners(&mut out, ghost_towns, picked);
    let ghost names = texts(out@);
    proof {
        let ts = all_towns@ + ghost_towns@;
        assert forall|n: Seq<char>| #[trigger] names.contains(n) <==> is_owner(ts, picked@, n) by {
            if is_owner(all_towns@, picked@, n) {
                let k = choose|k: int| 0 <= k < all_towns@.len() && #[trigger] owned_by(all_towns@[k], picked@, n);
                assert(ts[k] == all_towns@[k]);
                assert(owned_by(ts[k], picked@, n));
            }
            if is_owner(ghost_towns@, picked@, n) {
                let k = choose|k: int| 0 <= k < ghost_towns@.len() && #[trigger] owned_by(ghost_towns@[k], picked@, n);
                assert(ts[all_towns@.len() + k] == ghost_towns@[k]);
                assert(owned_by(ts[all_towns@.len() + k], picked@, n));
            }
            if is_owner(ts, picked@, n) {
                let k = choose|k: int| 0 <= k < ts.len() && #[trigger] owned_by(ts[k], picked@, n);
                if k < all_towns@.len() {
                    assert(owned_by(all_towns@[k], picked@, n));
                } else {
                    assert(owned_by(ghost_towns@[k - all_towns@.len()], picked@, n));
                }
            }
        }
    }
    let mut s = String::new();
    let mut i: usize = 0;
    while i < out.len()
        invariant
            names == texts(out@),
            i <= out@.len(),
            s@ == semicolon_joined(names.take(i as int)),
        decreases out@.len() - i,
    {
        if i > 0 {
            crate::text::push_char(&mut s, ';');
            crate::text::push_char(&mut s, ' ');
        }
        let v = chars_of(out[i].as_str());
        push_chars(&mut s, &v, 0, v.len());
        proof {
            assert(v@.subrange(0, v@.len() as int) =~= v@);
            assert(names.take(i + 1).drop_last() =~= names.take(i as int));
            assert(names.take(i + 1).last() == names[i as int]);
            if i == 0 {
                assert(names.take(1) =~= seq![names[0]]);
            }
        }
        i = i + 1;
    }
    assert(names.take(i as int) =~= names);
    s
}

} // verus!
