//! Ordered maps as sequences of key-value pairs: the model in which the
//! contracts of the library speak of an `IndexMap`.
use vstd::prelude::*;

verus! {

/// The keys of a map, in the order of its entries.
pub open spec fn keys<V>(entries: Seq<(Seq<char>, V)>) -> Seq<Seq<char>> {
    entries.map_values(|e: (Seq<char>, V)| e.0)
}

/// Whether some entry has the key.
pub open spec fn has_key<V>(entries: Seq<(Seq<char>, V)>, key: Seq<char>) -> bool {
    keys(entries).contains(key)
}

/// Where the entry with the key stands.
pub open spec fn position<V>(entries: Seq<(Seq<char>, V)>, key: Seq<char>) -> int {
    keys(entries).index_of(key)
}

/// What the key stands for.
pub open spec fn value<V>(entries: Seq<(Seq<char>, V)>, key: Seq<char>) -> V {
    entries[position(entries, key)].1
}

/// The entries once the key stands for `v`: in place where the key has an
/// entry, at the end where it has none.
pub open spec fn with_value<V>(
    entries: Seq<(Seq<char>, V)>,
    key: Seq<char>,
    v: V,
) -> Seq<(Seq<char>, V)> {
    if has_key(entries, key) {
        entries.update(position(entries, key), (key, v))
    } else {
        entries.push((key, v))
    }
}

/// The entries without that of the key, whose place the last entry takes.
pub open spec fn swap_removed<V>(
    entries: Seq<(Seq<char>, V)>,
    key: Seq<char>,
) -> Seq<(Seq<char>, V)> {
    entries.update(position(entries, key), entries.last()).drop_last()
}

/// In a map without repeated keys, the position of a key is where it stands.
pub proof fn lemma_position<V>(entries: Seq<(Seq<char>, V)>, i: int)
    requires
        keys(entries).no_duplicates(),
        0 <= i < entries.len(),
    ensures
        has_key(entries, entries[i].0),
        position(entries, entries[i].0) == i,
        value(entries, entries[i].0) == entries[i].1,
{
    assert(keys(entries)[i] == entries[i].0);
}

/// A key that a map has stands at its position.
pub proof fn lemma_has_key<V>(entries: Seq<(Seq<char>, V)>, key: Seq<char>)
    requires
        has_key(entries, key),
    ensures
        0 <= position(entries, key) < entries.len(),
        entries[position(entries, key)] == (key, value(entries, key)),
{
    assert(keys(entries)[position(entries, key)] == key);
}

/// Setting a value changes what its key stands for and nothing else.
pub proof fn lemma_with_value<V>(entries: Seq<(Seq<char>, V)>, key: Seq<char>, v: V)
    requires
        keys(entries).no_duplicates(),
    ensures
        keys(with_value(entries, key, v)).no_duplicates(),
        value(with_value(entries, key, v), key) == v,
        forall|k: Seq<char>| #[trigger]
            has_key(with_value(entries, key, v), k) <==> k == key || has_key(entries, k),
        forall|k: Seq<char>|
            k != key && has_key(entries, k) ==> #[trigger] value(with_value(entries, key, v), k)
                == value(entries, k),
{
    let after = with_value(entries, key, v);
    if has_key(entries, key) {
        lemma_has_key(entries, key);
        assert(keys(after) =~= keys(entries));
        lemma_position(after, position(entries, key));
    } else {
        assert(keys(after) =~= keys(entries).push(key));
        lemma_position(after, entries.len() as int);
    }
    assert forall|k: Seq<char>| k != key && has_key(entries, k) implies #[trigger] value(after, k)
        == value(entries, k) by {
        lemma_has_key(entries, k);
        lemma_position(after, position(entries, k));
    }
    assert forall|k: Seq<char>| #[trigger]
        has_key(after, k) <==> k == key || has_key(entries, k) by {
        if has_key(entries, k) {
            lemma_has_key(entries, k);
            lemma_position(after, position(entries, k));
        }
        if has_key(after, k) {
            lemma_has_key(after, k);
            if position(after, k) < entries.len() {
                lemma_position(entries, position(after, k));
            }
        }
    }
}

/// Removing an entry takes its key away and leaves every other entry.
pub proof fn lemma_swap_removed<V>(entries: Seq<(Seq<char>, V)>, key: Seq<char>)
    requires
        keys(entries).no_duplicates(),
        has_key(entries, key),
    ensures
        keys(swap_removed(entries, key)).no_duplicates(),
        forall|k: Seq<char>| #[trigger]
            has_key(swap_removed(entries, key), k) <==> k != key && has_key(entries, k),
        forall|k: Seq<char>|
            k != key && has_key(entries, k) ==> #[trigger] value(swap_removed(entries, key), k)
                == value(entries, k),
{
    let after = swap_removed(entries, key);
    let p = position(entries, key);
    let last = entries.len() - 1;
    lemma_has_key(entries, key);
    assert forall|i: int, j: int| 0 <= i < j < after.len() implies keys(after)[i] != keys(
        after,
    )[j] by {
        let x = if i == p { last } else { i };
        let y = if j == p { last } else { j };
        assert(keys(entries)[x] == keys(after)[i]);
        assert(keys(entries)[y] == keys(after)[j]);
    }
    assert forall|k: Seq<char>| k != key && has_key(entries, k) implies #[trigger] value(after, k)
        == value(entries, k) by {
        lemma_has_key(entries, k);
        let x = position(entries, k);
        lemma_position(after, if x == last { p } else { x });
    }
    assert forall|k: Seq<char>| #[trigger]
        has_key(after, k) <==> k != key && has_key(entries, k) by {
        if k != key && has_key(entries, k) {
            lemma_has_key(entries, k);
            let x = position(entries, k);
            lemma_position(after, if x == last { p } else { x });
        }
        if has_key(after, k) {
            lemma_has_key(after, k);
            let x = if position(after, k) == p { last } else { position(after, k) };
            lemma_position(entries, x);
        }
    }
}

} // verus!
