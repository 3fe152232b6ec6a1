//! The symbol tables: strings in the order of their first use, each with its
//! position as its id.
//!
//! A table is a vector that is searched from the front. The hash map of std
//! has a meaning in proofs only for keys whose hashing vstd models, which are
//! integers and `bool`; of a map with strings as keys nothing can be proved.
//! The reverse maps, from id to string, are hash maps.

use vstd::prelude::*;
use crate::nodes::NodeId;

verus! {

/// The strings of a table.
pub open spec fn strings_view(table: Seq<String>) -> Seq<Seq<char>> {
    Seq::new(table.len(), |i: int| table[i]@)
}

/// The position of the first occurrence of `s` in `table`.
pub open spec fn position<T>(table: Seq<T>, s: T) -> Option<int>
    decreases table.len(),
{
    if table.len() == 0 {
        None
    } else {
        match position(table.drop_last(), s) {
            Some(i) => Some(i),
            None => if table.last() == s {
                Some(table.len() - 1)
            } else {
                None
            },
        }
    }
}

/// What `position` finds is the first index that holds `s`, and it finds
/// nothing only where no index holds it.
pub proof fn lemma_position<T>(table: Seq<T>, s: T)
    ensures
        match position(table, s) {
            Some(i) => 0 <= i < table.len() && table[i] == s && forall|j: int|
                0 <= j < i ==> table[j] != s,
            None => forall|j: int| 0 <= j < table.len() ==> table[j] != s,
        },
    decreases table.len(),
{
    if table.len() > 0 {
        let front = table.drop_last();
        lemma_position(front, s);
        assert(forall|j: int| 0 <= j < front.len() ==> front[j] == table[j]);
        match position(front, s) {
            Some(i) => {
                assert(table[i] == front[i]);
            },
            None => {
                assert forall|j: int| 0 <= j < table.len() - 1 implies table[j] != s by {
                    assert(front[j] != s);
                }
            },
        }
    }
}

/// Looks `s` up in `table`.
pub fn find(table: &Vec<String>, s: &String) -> (found: Option<usize>)
    ensures
        match found {
            Some(i) => position(strings_view(table@), s@) == Some(i as int),
            None => position(strings_view(table@), s@) is None,
        },
{
    let mut i: usize = 0;
    while i < table.len()
        invariant
            i <= table.len(),
            forall|j: int| 0 <= j < i ==> strings_view(table@)[j] != s@,
        decreases table.len() - i,
    {
        if table[i] == *s {
            proof {
                lemma_position(strings_view(table@), s@);
                assert(strings_view(table@)[i as int] == s@);
            }
            return Some(i);
        }
        i = i + 1;
    }
    proof {
        lemma_position(strings_view(table@), s@);
    }
    None
}

/// The table after `s` was interned, and the id of `s` in it: its position
/// where the table holds it already, else the next free one.
pub open spec fn intern(table: Seq<Seq<char>>, s: Seq<char>) -> (Seq<Seq<char>>, int) {
    match position(table, s) {
        Some(i) => (table, i),
        None => (table.push(s), table.len() as int),
    }
}

/// Interning adds to the end of the table at most, and the id that it gives
/// is a position in the table that it leaves.
pub proof fn lemma_intern_grows(table: Seq<Seq<char>>, s: Seq<char>)
    ensures
        table.len() <= intern(table, s).0.len(),
        0 <= intern(table, s).1 < intern(table, s).0.len(),
        intern(table, s).1 <= table.len(),
        intern(table, s).0[intern(table, s).1] == s,
        table.is_prefix_of(intern(table, s).0),
{
    lemma_position(table, s);
    assert(table.push(s).take(table.len() as int) =~= table);
    assert(table.take(table.len() as int) =~= table);
}

/// A string that is interned a second time gets the id that it has, and the
/// table stays as it is.
pub proof fn lemma_intern_twice(table: Seq<Seq<char>>, s: Seq<char>)
    ensures
        intern(intern(table, s).0, s) == intern(table, s),
{
    lemma_position(table, s);
    lemma_position(table.push(s), s);
    if position(table, s) is None {
        assert(table.push(s)[table.len() as int] == s);
        assert forall|j: int| 0 <= j < table.len() implies table.push(s)[j] != s by {
            assert(table.push(s)[j] == table[j]);
        }
    }
}

/// Interning a string leaves every string that was interned before at its id.
pub proof fn lemma_intern_keeps_ids(table: Seq<Seq<char>>, s: Seq<char>, earlier: Seq<char>)
    requires
        position(table, earlier) is Some,
    ensures
        position(intern(table, s).0, earlier) == position(table, earlier),
{
    lemma_position(table, earlier);
    lemma_position(table.push(s), earlier);
    if position(table, s) is None {
        let i = position(table, earlier)->0;
        assert(table.push(s)[i] == earlier);
        assert forall|j: int| 0 <= j < i implies table.push(s)[j] != earlier by {
            assert(table.push(s)[j] == table[j]);
        }
    }
}

/// In a table without a string twice, interning puts no string in twice, and
/// two strings have the same id only if they are the same.
pub proof fn lemma_intern_one_to_one(table: Seq<Seq<char>>, s: Seq<char>)
    requires
        table.no_duplicates(),
    ensures
        intern(table, s).0.no_duplicates(),
        forall|t: Seq<char>|
            position(intern(table, s).0, t) == Some(intern(table, s).1) ==> t == s,
{
    lemma_position(table, s);
    let grown = intern(table, s).0;
    if position(table, s) is None {
        assert forall|i: int, j: int| 0 <= i < grown.len() && 0 <= j < grown.len() && i != j implies grown[i]
            != grown[j] by {
            if i < table.len() && j < table.len() {
                assert(table[i] != table[j]);
            } else if i < table.len() {
                assert(table[i] != s);
            } else {
                assert(table[j] != s);
            }
        }
    }
    assert forall|t: Seq<char>| position(grown, t) == Some(intern(table, s).1) implies t == s by {
        lemma_position(grown, t);
        lemma_position(grown, s);
    }
}

/// Interns `s` in `table`, unless its id would not be below `limit`.
pub fn intern_in(table: &mut Vec<String>, s: String, limit: usize) -> (id: Option<usize>)
    ensures
        id is Some <==> intern(strings_view(old(table)@), s@).1 < limit,
        id is Some ==> id->0 == intern(strings_view(old(table)@), s@).1 && strings_view(
            final(table)@,
        ) == intern(strings_view(old(table)@), s@).0,
        id is None ==> final(table)@ == old(table)@,
{
    match find(table, &s) {
        Some(i) => if i < limit {
            Some(i)
        } else {
            None
        },
        None => {
            let n = table.len();
            if n < limit {
                table.push(s);
                assert(strings_view(table@) =~= strings_view(old(table)@).push(s@));
                Some(n)
            } else {
                None
            }
        },
    }
}

/// Looks `id` up in a list of ids.
pub fn find_id(list: &Vec<NodeId>, id: NodeId) -> (found: Option<usize>)
    ensures
        match found {
            Some(i) => position(list@, id) == Some(i as int),
            None => position(list@, id) is None,
        },
{
    let mut i: usize = 0;
    while i < list.len()
        invariant
            i <= list.len(),
            forall|j: int| 0 <= j < i ==> list@[j] != id,
        decreases list.len() - i,
    {
        if list[i] == id {
            proof {
                lemma_position(list@, id);
            }
            return Some(i);
        }
        i = i + 1;
    }
    proof {
        lemma_position(list@, id);
    }
    None
}

} // verus!
