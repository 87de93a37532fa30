//! Ghost model of a directory's entry list: a sequence of (name, index)
//! pairs, abstracted to a map from names to node indices.
use vstd::prelude::*;

verus! {

/// Ghost view of one directory entry: a name and the slot it points to.
pub struct DirEntryView {
    pub name: Seq<char>,
    pub index: int,
}

/// The map from entry names to node indices described by an entry sequence.
/// A later entry with the same name wins, but well-formed directories never
/// repeat a name.
pub open spec fn entry_map_of(s: Seq<DirEntryView>) -> Map<Seq<char>, int>
    decreases s.len(),
{
    if s.len() == 0 {
        Map::empty()
    } else {
        entry_map_of(s.drop_last()).insert(s.last().name, s.last().index)
    }
}

/// No two entries of the sequence share a name.
pub open spec fn distinct_names(s: Seq<DirEntryView>) -> bool {
    forall|i: int, j: int| 0 <= i < j < s.len() ==> s[i].name != s[j].name
}

/// A name is a key of the entry map exactly when some entry carries it.
pub proof fn lemma_entry_map_contains(s: Seq<DirEntryView>, n: Seq<char>)
    ensures
        entry_map_of(s).contains_key(n) <==> exists|j: int| 0 <= j < s.len() && s[j].name == n,
    decreases s.len(),
{
    if s.len() > 0 {
        lemma_entry_map_contains(s.drop_last(), n);
        if s.last().name == n {
            assert(s[s.len() - 1].name == n);
        } else if entry_map_of(s).contains_key(n) {
            let j = choose|j: int| 0 <= j < s.drop_last().len() && s.drop_last()[j].name == n;
            assert(s[j].name == n);
        } else if exists|j: int| 0 <= j < s.len() && s[j].name == n {
            let j = choose|j: int| 0 <= j < s.len() && s[j].name == n;
            assert(s.drop_last()[j].name == n);
        }
    }
}

/// Under distinct names, the map sends each entry's name to its index.
pub proof fn lemma_entry_map_at(s: Seq<DirEntryView>, j: int)
    requires
        distinct_names(s),
        0 <= j < s.len(),
    ensures
        entry_map_of(s).contains_key(s[j].name),
        entry_map_of(s)[s[j].name] == s[j].index,
    decreases s.len(),
{
    if j == s.len() - 1 {
    } else {
        assert(distinct_names(s.drop_last())) by {
            assert(forall|i1: int, i2: int|
                0 <= i1 < i2 < s.drop_last().len() ==> s.drop_last()[i1].name
                    != s.drop_last()[i2].name) by {
                assert(forall|i1: int, i2: int|
                    0 <= i1 < i2 < s.len() - 1 ==> s[i1].name != s[i2].name);
            }
        }
        lemma_entry_map_at(s.drop_last(), j);
        assert(s.drop_last()[j] == s[j]);
        assert(s[j].name != s.last().name);
    }
}

/// Appending an entry inserts its pair into the map.
pub proof fn lemma_entry_map_push(s: Seq<DirEntryView>, e: DirEntryView)
    ensures
        entry_map_of(s.push(e)) == entry_map_of(s).insert(e.name, e.index),
{
    assert(s.push(e).drop_last() =~= s);
    assert(s.push(e).last() == e);
}

/// Under distinct names, removing the entry at one position removes exactly
/// its name from the map.
pub proof fn lemma_entry_map_remove(s: Seq<DirEntryView>, j: int)
    requires
        distinct_names(s),
        0 <= j < s.len(),
    ensures
        entry_map_of(s.remove(j)) =~= entry_map_of(s).remove(s[j].name),
    decreases s.len(),
{
    lemma_entry_map_contains(s.drop_last(), s.last().name);
    if j == s.len() - 1 {
        assert(s.remove(j) =~= s.drop_last());
        assert(!entry_map_of(s.drop_last()).contains_key(s.last().name)) by {
            assert(forall|i: int| 0 <= i < s.len() - 1 ==> s[i].name != s.last().name);
            assert(forall|i: int| 0 <= i < s.drop_last().len() ==> s.drop_last()[i] == s[i]);
        }
    } else {
        assert(distinct_names(s.drop_last())) by {
            assert(forall|i1: int, i2: int|
                0 <= i1 < i2 < s.len() - 1 ==> s[i1].name != s[i2].name);
        }
        lemma_entry_map_remove(s.drop_last(), j);
        assert(s.remove(j).drop_last() =~= s.drop_last().remove(j)) by {
            assert(s.remove(j).len() == s.len() - 1);
            assert(forall|i: int|
                0 <= i < s.len() - 2 ==> #[trigger] s.remove(j).drop_last()[i]
                    == s.drop_last().remove(j)[i]);
        }
        assert(s.remove(j).last() == s.last());
        assert(s.drop_last()[j] == s[j]);
        assert(s[j].name != s.last().name);
    }
}

/// Removing an element keeps names distinct; the survivors are the elements
/// before and after the removed position.
pub proof fn lemma_remove_distinct(s: Seq<DirEntryView>, j: int)
    requires
        distinct_names(s),
        0 <= j < s.len(),
    ensures
        distinct_names(s.remove(j)),
        forall|i: int|
            0 <= i < s.remove(j).len() ==> #[trigger] s.remove(j)[i] == (if i < j {
                s[i]
            } else {
                s[i + 1]
            }),
{
    assert forall|i: int| 0 <= i < s.remove(j).len() implies #[trigger] s.remove(j)[i] == (if i
        < j {
        s[i]
    } else {
        s[i + 1]
    }) by {}
    assert forall|i1: int, i2: int|
        0 <= i1 < i2 < s.remove(j).len() implies s.remove(j)[i1].name != s.remove(j)[i2].name by {
        assert(s.remove(j)[i1] == (if i1 < j {
            s[i1]
        } else {
            s[i1 + 1]
        }));
        assert(s.remove(j)[i2] == (if i2 < j {
            s[i2]
        } else {
            s[i2 + 1]
        }));
    }
}

/// Under distinct names, overwriting the entry at one position while keeping
/// its name re-points that name in the map.
pub proof fn lemma_entry_map_update(s: Seq<DirEntryView>, j: int, e: DirEntryView)
    requires
        distinct_names(s),
        0 <= j < s.len(),
        e.name == s[j].name,
    ensures
        entry_map_of(s.update(j, e)) =~= entry_map_of(s).insert(e.name, e.index),
    decreases s.len(),
{
    if j == s.len() - 1 {
        assert(s.update(j, e).drop_last() =~= s.drop_last());
        assert(s.update(j, e).last() == e);
    } else {
        assert(distinct_names(s.drop_last())) by {
            assert(forall|i1: int, i2: int|
                0 <= i1 < i2 < s.len() - 1 ==> s[i1].name != s[i2].name);
        }
        lemma_entry_map_update(s.drop_last(), j, e);
        assert(s.update(j, e).drop_last() =~= s.drop_last().update(j, e));
        assert(s.update(j, e).last() == s.last());
        assert(s.drop_last()[j] == s[j]);
        assert(s[j].name != s.last().name);
    }
}

} // verus!
